//! The public input layout the off-chain verifier reads.
//!
//! Circuit signatures live with the circuits and the verifier lives
//! elsewhere, so nothing but this layout tells it where `domain` sits or
//! which return value is a commitment. It is generated from the compiled
//! ABIs.
//!
//! Two things it must not do. It must not read whatever happens to be in the
//! build directory, because a stale artifact from a deleted package produces
//! an entry for a circuit that no longer exists; the members come from the
//! workspace manifest. And it must not omit the witness tools silently: they
//! are executed and never proved, so no verifier reads their inputs, and the
//! layout says so in its header.
pub mod json;

use crate::manifest::json::{
    array_items_spec, field_chars, field_spec, items_chars, section_chars, section_spec, slots,
    slots_of, string_chars, string_spec, char_views,
};
use crate::text::{
    chars_of, decimal, push_char, push_decimal, push_str, string_of, string_views, sub_chars,
    trim, trimmed,
};
use vstd::prelude::*;
use vstd::string::*;

verus! {

/// Packages that solve a witness and are never proved.
pub const TOOLS: [&'static str; 3] = ["mrz_opening", "registry_witness", "document_secret"];

/// What opens the layout file.
pub const MANIFEST_HEADER: &'static str = "# Public input order per circuit, generated from the compiled ABIs.\n# Each name is one field element, in the order Barretenberg lays them out.\n# Witness tools are excluded: they are executed, never proved, so no\n# verifier reads their public inputs.\n";

/// Whether `package` is one of the witness tools.
pub fn is_tool(package: &str) -> (tool: bool)
    ensures
        tool == (package@ == TOOLS[0]@ || package@ == TOOLS[1]@ || package@ == TOOLS[2]@),
{
    let name = String::from_str(package);
    let mut i: usize = 0;
    while i < 3
        invariant
            i <= 3,
            name@ == package@,
            forall|j: int| 0 <= j < i ==> package@ != TOOLS[j]@,
        decreases 3 - i,
    {
        let tool = String::from_str(TOOLS[i]);
        if name == tool {
            return true;
        }
        i += 1;
    }
    false
}

// ---------------------------------------------------------------------------
// Lines.
/// Where the line starting at `i` ends: the next `\n`, or the end.
pub open spec fn line_end_from(s: Seq<char>, i: int) -> int
    decreases s.len() - i,
{
    if i >= s.len() {
        s.len() as int
    } else if s[i] == '\n' {
        i
    } else {
        line_end_from(s, i + 1)
    }
}

pub proof fn lemma_line_end_bound(s: Seq<char>, i: int)
    requires
        0 <= i <= s.len(),
    ensures
        i <= line_end_from(s, i) <= s.len(),
    decreases s.len() - i,
{
    if i < s.len() && s[i] != '\n' {
        lemma_line_end_bound(s, i + 1);
    }
}

/// The text between line breaks. A carriage return before a break stays
/// with its line; everything here trims lines before reading them.
pub open spec fn split_lines(s: Seq<char>) -> Seq<Seq<char>>
    decreases s.len(),
{
    let k = line_end_from(s, 0);
    if k >= s.len() {
        seq![s]
    } else {
        proof {
            lemma_line_end_bound(s, 0);
        }
        seq![s.take(k)] + split_lines(s.skip(k + 1))
    }
}

/// The lines of `s`, split at each line break.
pub fn lines_of(s: &[char]) -> (lines: Vec<Vec<char>>)
    ensures
        char_views(lines@) == split_lines(s@),
{
    let mut lines: Vec<Vec<char>> = Vec::new();
    let mut start: usize = 0;
    let mut i: usize = 0;
    proof {
        assert(s@.skip(0) =~= s@);
    }
    while i < s.len()
        invariant
            start <= i <= s.len(),
            line_end_from(s@.skip(start as int), 0) == line_end_from(
                s@.skip(start as int),
                (i - start) as int,
            ),
            char_views(lines@) + split_lines(s@.skip(start as int)) == split_lines(s@),
        decreases s.len() - i,
    {
        let ghost rest = s@.skip(start as int);
        proof {
            assert(rest[(i - start) as int] == s@[i as int]);
        }
        if s[i] == '\n' {
            let line = sub_chars(s, start, i);
            proof {
                lemma_line_end_bound(rest, 0);
                assert(line@ =~= rest.take((i - start) as int));
                assert(rest.skip((i - start) + 1) =~= s@.skip(i + 1));
                let ghost before = lines@;
                assert(split_lines(rest) == seq![line@] + split_lines(s@.skip(i + 1)));
            }
            let ghost before = lines@;
            lines.push(line);
            proof {
                assert(char_views(lines@) =~= char_views(before).push(line@));
                assert(char_views(before).push(line@) + split_lines(s@.skip(i + 1))
                    =~= char_views(before) + (seq![line@] + split_lines(s@.skip(i + 1))));
                assert(s@.skip(i + 1).skip(0) =~= s@.skip(i + 1));
            }
            start = i + 1;
        }
        i += 1;
    }
    let line = sub_chars(s, start, s.len());
    proof {
        let rest = s@.skip(start as int);
        assert(line@ =~= rest);
        lemma_line_end_bound(rest, 0);
        assert(split_lines(rest) == seq![rest]);
    }
    let ghost before = lines@;
    lines.push(line);
    proof {
        assert(char_views(lines@) =~= char_views(before) + seq![line@]);
    }
    lines
}

// ---------------------------------------------------------------------------
// The workspace manifest.
/// A quote or a comma, what surrounds a member in the workspace list.
pub open spec fn is_member_mark(c: char) -> bool {
    c == '"' || c == ','
}

/// How many marks `s` starts with.
pub open spec fn leading_marks(s: Seq<char>) -> nat
    decreases s.len(),
{
    if s.len() > 0 && is_member_mark(s[0]) {
        1 + leading_marks(s.drop_first())
    } else {
        0
    }
}

/// How many marks `s` ends with.
pub open spec fn trailing_marks(s: Seq<char>) -> nat
    decreases s.len(),
{
    if s.len() > 0 && is_member_mark(s.last()) {
        1 + trailing_marks(s.drop_last())
    } else {
        0
    }
}

/// `s` without quotes and commas at either end.
pub open spec fn strip_marks(s: Seq<char>) -> Seq<char> {
    let t = s.skip(leading_marks(s) as int);
    t.take(t.len() - trailing_marks(t))
}

/// The workspace member a line names: a quoted, non-empty entry of the
/// member list.
pub open spec fn member_of_line(line: Seq<char>) -> Option<Seq<char>> {
    let t = trim(line);
    if t.len() > 0 && t[0] == '"' && strip_marks(t).len() > 0 {
        Some(strip_marks(t))
    } else {
        None
    }
}

/// The members the lines name, in order.
pub open spec fn members_of(lines: Seq<Seq<char>>) -> Seq<Seq<char>>
    decreases lines.len(),
{
    if lines.len() == 0 {
        seq![]
    } else {
        members_of(lines.drop_last()) + match member_of_line(lines.last()) {
            Some(m) => seq![m],
            None => seq![],
        }
    }
}

proof fn lemma_leading_marks(s: Seq<char>, k: int)
    requires
        0 <= k <= s.len(),
        forall|m: int| 0 <= m < k ==> is_member_mark(s[m]),
        k == s.len() || !is_member_mark(s[k]),
    ensures
        leading_marks(s) == k,
    decreases k,
{
    if k > 0 {
        lemma_leading_marks(s.drop_first(), k - 1);
    }
}

proof fn lemma_trailing_marks(s: Seq<char>, k: int)
    requires
        0 <= k <= s.len(),
        forall|m: int| s.len() - k <= m < s.len() ==> is_member_mark(s[m]),
        k == s.len() || !is_member_mark(s[s.len() - k - 1]),
    ensures
        trailing_marks(s) == k,
    decreases k,
{
    if k > 0 {
        lemma_trailing_marks(s.drop_last(), k - 1);
    }
}

fn stripped_marks(s: &[char]) -> (out: Vec<char>)
    ensures
        out@ == strip_marks(s@),
{
    let mut i: usize = 0;
    while i < s.len() && (s[i] == '"' || s[i] == ',')
        invariant
            i <= s.len(),
            forall|m: int| 0 <= m < i ==> is_member_mark(s@[m]),
        decreases s.len() - i,
    {
        i += 1;
    }
    proof {
        lemma_leading_marks(s@, i as int);
    }
    let t = sub_chars(s, i, s.len());
    proof {
        assert(t@ =~= s@.skip(i as int));
    }
    let mut end: usize = t.len();
    while end > 0 && (t[end - 1] == '"' || t[end - 1] == ',')
        invariant
            end <= t.len(),
            forall|m: int| end <= m < t.len() ==> is_member_mark(t@[m]),
        decreases end,
    {
        end -= 1;
    }
    proof {
        lemma_trailing_marks(t@, t.len() - end);
    }
    let out = sub_chars(&t, 0, end);
    proof {
        assert(out@ =~= strip_marks(s@));
    }
    out
}

/// The packages the workspace manifest declares as members. Only these
/// count: reading the build directory instead would carry forward anything
/// left behind by a package that has been removed.
pub fn workspace_members(text: &str) -> (members: Vec<String>)
    ensures
        string_views(members@) == members_of(split_lines(text@)),
{
    let lines = lines_of(&chars_of(text));
    let ghost views = char_views(lines@);
    let mut members: Vec<String> = Vec::new();
    let mut k: usize = 0;
    proof {
        assert(views.take(0) =~= Seq::<Seq<char>>::empty());
    }
    while k < lines.len()
        invariant
            k <= lines.len(),
            views == char_views(lines@),
            string_views(members@) == members_of(views.take(k as int)),
        decreases lines.len() - k,
    {
        proof {
            assert(views.take(k + 1).drop_last() =~= views.take(k as int));
            assert(views.take(k + 1).last() == lines@[k as int]@);
        }
        let t = trimmed(&lines[k]);
        if t.len() > 0 && t[0] == '"' {
            let member = stripped_marks(&t);
            if member.len() > 0 {
                let ghost before = members@;
                let text = string_of(&member);
                members.push(text);
                proof {
                    assert(string_views(members@) =~= string_views(before) + seq![text@]);
                }
            } else {
                proof {
                    assert(string_views(members@) =~= string_views(members@) + Seq::<
                        Seq<char>,
                    >::empty());
                }
            }
        } else {
            proof {
                assert(string_views(members@) =~= string_views(members@) + Seq::<
                    Seq<char>,
                >::empty());
            }
        }
        k += 1;
    }
    proof {
        assert(views.take(k as int) =~= views);
    }
    members
}

/// The value a package manifest gives `field` on the first line that
/// declares it, without its quotes.
pub open spec fn field_in_lines(lines: Seq<Seq<char>>, key: Seq<char>) -> Option<Seq<char>>
    decreases lines.len(),
{
    if lines.len() == 0 {
        None
    } else {
        let t = trim(lines[0]);
        if t.len() >= key.len() && t.take(key.len() as int) == key {
            Some(strip_quotes(t.skip(key.len() as int)))
        } else {
            field_in_lines(lines.drop_first(), key)
        }
    }
}

/// How many quotes `s` starts with.
pub open spec fn leading_quotes(s: Seq<char>) -> nat
    decreases s.len(),
{
    if s.len() > 0 && s[0] == '"' {
        1 + leading_quotes(s.drop_first())
    } else {
        0
    }
}

/// How many quotes `s` ends with.
pub open spec fn trailing_quotes(s: Seq<char>) -> nat
    decreases s.len(),
{
    if s.len() > 0 && s.last() == '"' {
        1 + trailing_quotes(s.drop_last())
    } else {
        0
    }
}

/// `s` without quotes at either end.
pub open spec fn strip_quotes(s: Seq<char>) -> Seq<char> {
    let t = s.skip(leading_quotes(s) as int);
    t.take(t.len() - trailing_quotes(t))
}

proof fn lemma_leading_quotes(s: Seq<char>, k: int)
    requires
        0 <= k <= s.len(),
        forall|m: int| 0 <= m < k ==> s[m] == '"',
        k == s.len() || s[k] != '"',
    ensures
        leading_quotes(s) == k,
    decreases k,
{
    if k > 0 {
        lemma_leading_quotes(s.drop_first(), k - 1);
    }
}

proof fn lemma_trailing_quotes(s: Seq<char>, k: int)
    requires
        0 <= k <= s.len(),
        forall|m: int| s.len() - k <= m < s.len() ==> s[m] == '"',
        k == s.len() || s[s.len() - k - 1] != '"',
    ensures
        trailing_quotes(s) == k,
    decreases k,
{
    if k > 0 {
        lemma_trailing_quotes(s.drop_last(), k - 1);
    }
}

fn stripped_quotes(s: &[char]) -> (out: Vec<char>)
    ensures
        out@ == strip_quotes(s@),
{
    let mut i: usize = 0;
    while i < s.len() && s[i] == '"'
        invariant
            i <= s.len(),
            forall|m: int| 0 <= m < i ==> s@[m] == '"',
        decreases s.len() - i,
    {
        i += 1;
    }
    proof {
        lemma_leading_quotes(s@, i as int);
    }
    let t = sub_chars(s, i, s.len());
    proof {
        assert(t@ =~= s@.skip(i as int));
    }
    let mut end: usize = t.len();
    while end > 0 && t[end - 1] == '"'
        invariant
            end <= t.len(),
            forall|m: int| end <= m < t.len() ==> t@[m] == '"',
        decreases end,
    {
        end -= 1;
    }
    proof {
        lemma_trailing_quotes(t@, t.len() - end);
    }
    let out = sub_chars(&t, 0, end);
    proof {
        assert(out@ =~= strip_quotes(s@));
    }
    out
}

/// `field = ` as a package manifest writes it.
pub open spec fn field_prefix(field: Seq<char>) -> Seq<char> {
    field + seq![' ', '=', ' ']
}

/// The value a package manifest gives `field`, without its quotes; `None`
/// when it declares no such field.
pub fn package_field(text: &str, field: &str) -> (value: Option<String>)
    ensures
        crate::manifest::json::option_view(value) == field_in_lines(
            split_lines(text@),
            field_prefix(field@),
        ),
{
    let mut key = chars_of(field);
    key.push(' ');
    key.push('=');
    key.push(' ');
    proof {
        assert(key@ =~= field_prefix(field@));
    }
    let lines = lines_of(&chars_of(text));
    let ghost views = char_views(lines@);
    let mut k: usize = 0;
    proof {
        assert(views.skip(0) =~= views);
    }
    while k < lines.len()
        invariant
            k <= lines.len(),
            views == char_views(lines@),
            views == split_lines(text@),
            key@ == field_prefix(field@),
            field_in_lines(views, key@) == field_in_lines(views.skip(k as int), key@),
        decreases lines.len() - k,
    {
        proof {
            assert(views.skip(k as int)[0] == lines@[k as int]@);
            assert(views.skip(k as int).drop_first() =~= views.skip(k + 1));
        }
        let t = trimmed(&lines[k]);
        if crate::text::starts_with(&t, &key) {
            let rest = sub_chars(&t, key.len(), t.len());
            proof {
                assert(rest@ =~= t@.skip(key@.len() as int));
            }
            let value = stripped_quotes(&rest);
            return Some(string_of(&value));
        }
        k += 1;
    }
    None
}

// ---------------------------------------------------------------------------
// The public inputs of one circuit.
/// `name[i]`
pub open spec fn indexed(name: Seq<char>, i: nat) -> Seq<char> {
    name + seq!['['] + decimal(i) + seq![']']
}

/// The names `count` slots under `name` take: the name alone for one, one
/// indexed name per slot otherwise.
pub open spec fn slot_names(name: Seq<char>, count: nat) -> Seq<Seq<char>> {
    if count == 1 {
        seq![name]
    } else {
        Seq::new(count, |i: int| indexed(name, i as nat))
    }
}

/// The public input names a parameter contributes: none unless it is
/// public, then one per slot of its type.
pub open spec fn parameter_names(parameter: Seq<char>) -> Option<Seq<Seq<char>>> {
    if string_spec(parameter, "visibility"@) != Some("public"@) {
        Some(seq![])
    } else {
        match (string_spec(parameter, "name"@), field_spec(parameter, "type"@)) {
            (Some(name), Some(t)) => match slots(t) {
                Some(n) => Some(slot_names(name, n)),
                None => None,
            },
            _ => None,
        }
    }
}

/// The names of all the parameters, in the order they are declared.
pub open spec fn all_parameter_names(parameters: Seq<Seq<char>>) -> Option<Seq<Seq<char>>>
    decreases parameters.len(),
{
    if parameters.len() == 0 {
        Some(seq![])
    } else {
        match (
            all_parameter_names(parameters.drop_last()),
            parameter_names(parameters.last()),
        ) {
            (Some(a), Some(b)) => Some(a + b),
            _ => None,
        }
    }
}

/// The names the return values take. A circuit that only asserts returns
/// nothing, which the ABI records as a null rather than by leaving the
/// field out.
pub open spec fn return_names(abi: Seq<char>) -> Option<Seq<Seq<char>>> {
    match field_spec(abi, "return_type"@) {
        None => Some(seq![]),
        Some(return_type) => if trim(return_type) == "null"@ {
            Some(seq![])
        } else {
            match field_spec(return_type, "abi_type"@) {
                Some(inner) => match slots(inner) {
                    Some(n) => Some(Seq::new(n, |i: int| indexed("return"@, i as nat))),
                    None => None,
                },
                None => None,
            }
        },
    }
}

/// The public inputs of a compiled circuit in the order Barretenberg lays
/// them out: public parameters as declared, then the return values; `None`
/// when the compiled output lacks a part the walk needs.
pub open spec fn public_input_names(text: Seq<char>) -> Option<Seq<Seq<char>>> {
    match section_spec(text, "\"abi\":"@) {
        None => None,
        Some(abi) => match field_spec(abi, "parameters"@) {
            None => None,
            Some(parameters) => match (
                all_parameter_names(array_items_spec(parameters)),
                return_names(abi),
            ) {
                (Some(a), Some(b)) => Some(a + b),
                _ => None,
            },
        },
    }
}

/// Names joined by single spaces.
pub open spec fn spaced(names: Seq<Seq<char>>) -> Seq<char>
    decreases names.len(),
{
    if names.len() == 0 {
        seq![]
    } else if names.len() == 1 {
        names[0]
    } else {
        spaced(names.drop_last()) + seq![' '] + names.last()
    }
}

/// Appends the names `count` slots under `name` take.
fn push_slot_names(names: &mut Vec<String>, name: &[char], count: usize)
    ensures
        string_views(final(names)@) == string_views(old(names)@) + slot_names(name@, count as nat),
{
    if count == 1 {
        let ghost before = names@;
        let text = string_of(name);
        names.push(text);
        proof {
            assert(string_views(names@) =~= string_views(before) + slot_names(
                name@,
                count as nat,
            ));
        }
        return;
    }
    let ghost start = string_views(names@);
    let mut i: usize = 0;
    while i < count
        invariant
            i <= count,
            count != 1,
            string_views(names@) == start + slot_names(name@, count as nat).take(i as int),
        decreases count - i,
    {
        let mut text = string_of(name);
        push_char(&mut text, '[');
        push_decimal(&mut text, i as u128);
        push_char(&mut text, ']');
        let ghost before = names@;
        names.push(text);
        proof {
            assert(text@ =~= indexed(name@, i as nat));
            assert(string_views(names@) =~= string_views(before).push(text@));
            assert(slot_names(name@, count as nat).take(i + 1) =~= slot_names(
                name@,
                count as nat,
            ).take(i as int).push(indexed(name@, i as nat)));
        }
        i += 1;
    }
    proof {
        assert(slot_names(name@, count as nat).take(i as int) =~= slot_names(
            name@,
            count as nat,
        ));
    }
}

proof fn lemma_names_none_extends(parameters: Seq<Seq<char>>, k: int)
    requires
        0 <= k <= parameters.len(),
        all_parameter_names(parameters.take(k)) is None,
    ensures
        all_parameter_names(parameters) is None,
    decreases parameters.len() - k,
{
    if k < parameters.len() {
        assert(parameters.take(k + 1).drop_last() =~= parameters.take(k));
        lemma_names_none_extends(parameters, k + 1);
    } else {
        assert(parameters.take(k) =~= parameters);
    }
}

/// Whether `a` holds the characters of `b`.
fn same(a: &[char], b: &[char]) -> (same: bool)
    ensures
        same == (a@ == b@),
{
    if a.len() != b.len() {
        return false;
    }
    let mut i: usize = 0;
    while i < a.len()
        invariant
            a.len() == b.len(),
            i <= a.len(),
            forall|k: int| 0 <= k < i ==> a@[k] == b@[k],
        decreases a.len() - i,
    {
        if a[i] != b[i] {
            return false;
        }
        i += 1;
    }
    proof {
        assert(a@ =~= b@);
    }
    true
}

/// The public input names of a compiled circuit, from its JSON.
pub fn public_input_list(text: &str) -> (names: Option<Vec<String>>)
    ensures
        (match names {
            Some(v) => Some(string_views(v@)),
            None => None::<Seq<Seq<char>>>,
        }) == public_input_names(text@),
{
    let abi = match section_chars(&chars_of(text), &chars_of("\"abi\":")) {
        Some(abi) => abi,
        None => {
            return None;
        },
    };
    let parameters = match field_chars(&abi, &chars_of("parameters")) {
        Some(p) => p,
        None => {
            return None;
        },
    };
    let items = items_chars(&parameters);
    let ghost views = char_views(items@);
    let mut names: Vec<String> = Vec::new();
    let mut k: usize = 0;
    proof {
        assert(views.take(0) =~= Seq::<Seq<char>>::empty());
    }
    while k < items.len()
        invariant
            k <= items.len(),
            views == char_views(items@),
            section_spec(text@, "\"abi\":"@) == Some(abi@),
            field_spec(abi@, "parameters"@) == Some(parameters@),
            views == array_items_spec(parameters@),
            all_parameter_names(views.take(k as int)) == Some(string_views(names@)),
        decreases items.len() - k,
    {
        proof {
            assert(views.take(k + 1).drop_last() =~= views.take(k as int));
            assert(views.take(k + 1).last() == items@[k as int]@);
        }
        let item = &items[k];
        let visibility = string_chars(item, &chars_of("visibility"));
        let public = match visibility {
            Some(v) => same(&v, &chars_of("public")),
            None => false,
        };
        if public {
            let name = string_chars(item, &chars_of("name"));
            let t = field_chars(item, &chars_of("type"));
            let (name, t) = match (name, t) {
                (Some(n), Some(t)) => (n, t),
                _ => {
                    proof {
                        lemma_names_none_extends(views, k + 1);
                    }
                    return None;
                },
            };
            let count = match slots_of(&t) {
                Some(c) => c,
                None => {
                    proof {
                        lemma_names_none_extends(views, k + 1);
                    }
                    return None;
                },
            };
            push_slot_names(&mut names, &name, count);
        } else {
            proof {
                assert(string_views(names@) =~= string_views(names@) + Seq::<
                    Seq<char>,
                >::empty());
            }
        }
        k += 1;
    }
    proof {
        assert(views.take(k as int) =~= views);
    }
    let return_field = field_chars(&abi, &chars_of("return_type"));
    match return_field {
        None => {
            proof {
                assert(string_views(names@) =~= string_views(names@) + Seq::<Seq<char>>::empty());
            }
            Some(names)
        },
        Some(return_type) => {
            if same(&trimmed(&return_type), &chars_of("null")) {
                proof {
                    assert(string_views(names@) =~= string_views(names@) + Seq::<
                        Seq<char>,
                    >::empty());
                }
                return Some(names);
            }
            let inner = match field_chars(&return_type, &chars_of("abi_type")) {
                Some(inner) => inner,
                None => {
                    return None;
                },
            };
            let count = match slots_of(&inner) {
                Some(c) => c,
                None => {
                    return None;
                },
            };
            let ghost start = string_views(names@);
            let mut i: usize = 0;
            while i < count
                invariant
                    i <= count,
                    string_views(names@) == start + Seq::new(
                        count as nat,
                        |j: int| indexed("return"@, j as nat),
                    ).take(i as int),
                decreases count - i,
            {
                let mut text = String::from_str("return");
                push_char(&mut text, '[');
                push_decimal(&mut text, i as u128);
                push_char(&mut text, ']');
                let ghost before = names@;
                names.push(text);
                proof {
                    assert(text@ =~= indexed("return"@, i as nat));
                    assert(string_views(names@) =~= string_views(before).push(text@));
                }
                i += 1;
                proof {
                    assert(string_views(names@) =~= start + Seq::new(
                        count as nat,
                        |j: int| indexed("return"@, j as nat),
                    ).take(i as int));
                }
            }
            proof {
                assert(Seq::new(count as nat, |j: int| indexed("return"@, j as nat)).take(
                    i as int,
                ) =~= Seq::new(count as nat, |j: int| indexed("return"@, j as nat)));
            }
            Some(names)
        },
    }
}

/// The public inputs of a compiled circuit as the layout lists them:
/// names joined by spaces.
pub fn public_inputs(text: &str) -> (inputs: Option<String>)
    ensures
        (match inputs {
            Some(s) => Some(s@),
            None => None::<Seq<char>>,
        }) == (match public_input_names(text@) {
            Some(names) => Some(spaced(names)),
            None => None::<Seq<char>>,
        }),
{
    let names = match public_input_list(text) {
        Some(names) => names,
        None => {
            return None;
        },
    };
    let ghost views = string_views(names@);
    let mut out = String::new();
    let mut k: usize = 0;
    while k < names.len()
        invariant
            k <= names.len(),
            views == string_views(names@),
            out@ == spaced(views.take(k as int)),
        decreases names.len() - k,
    {
        if k > 0 {
            push_char(&mut out, ' ');
        }
        push_str(&mut out, names[k].as_str());
        proof {
            assert(views.take(k + 1).drop_last() =~= views.take(k as int));
            assert(views.take(k + 1).last() == names@[k as int]@);
            if k == 0 {
                assert(out@ =~= views.take(1)[0]);
            } else {
                assert(out@ =~= spaced(views.take(k as int)) + seq![' '] + names@[k as int]@);
            }
        }
        k += 1;
    }
    proof {
        assert(views.take(k as int) =~= views);
    }
    Some(out)
}

/// The layout's line for one circuit: its package name, then its public
/// inputs.
pub fn manifest_line(package: &str, inputs: &str) -> (line: String)
    ensures
        line@ == package@ + seq![' '] + inputs@ + seq!['\n'],
{
    let mut line = String::from_str(package);
    push_char(&mut line, ' ');
    push_str(&mut line, inputs);
    push_char(&mut line, '\n');
    line
}

} // verus!
