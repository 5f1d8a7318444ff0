//! A reader for the shapes of JSON a compiled circuit's ABI takes, rather
//! than a general JSON parser: enough to walk an ABI and nothing more. Text
//! is read as characters; braces, brackets, quotes and separators are all
//! ASCII, so a character reading and a byte reading find the same places.
use crate::text::{
    chars_of, find, find_chars, matches_at, parse_unsigned, string_of,
    string_views, sub_chars, trim, trim_start, trimmed, trimmed_start, unsigned_value,
};
use vstd::prelude::*;
use vstd::string::*;

verus! {

/// How a character moves the nesting: braces and brackets alike.
pub open spec fn nesting(c: char) -> int {
    if c == '{' || c == '[' {
        1
    } else if c == '}' || c == ']' {
        -1
    } else {
        0
    }
}

/// How deeply nested the end of `s` is.
pub open spec fn depth(s: Seq<char>) -> int
    decreases s.len(),
{
    if s.len() == 0 {
        0
    } else {
        depth(s.drop_last()) + nesting(s.last())
    }
}

/// How deeply nested the end of `s` is, counting `open` and `close` only.
pub open spec fn pair_depth(s: Seq<char>, open: char, close: char) -> int
    decreases s.len(),
{
    if s.len() == 0 {
        0
    } else {
        pair_depth(s.drop_last(), open, close) + (if s.last() == open {
            1int
        } else if s.last() == close {
            -1int
        } else {
            0int
        })
    }
}

/// The bracket that closes `open`.
pub open spec fn closing(open: char) -> char {
    if open == '{' {
        '}'
    } else {
        ']'
    }
}

/// The length of the shortest prefix of `t`, at least `k` long, in which
/// `open` and `close` balance.
pub open spec fn balance_at(t: Seq<char>, open: char, close: char, k: int) -> Option<int>
    decreases t.len() + 1 - k,
{
    if k < 1 || k > t.len() {
        None
    } else if pair_depth(t.take(k), open, close) == 0 {
        Some(k)
    } else {
        balance_at(t, open, close, k + 1)
    }
}

/// A character that ends a scalar value.
pub open spec fn ends_scalar(c: char) -> bool {
    c == ',' || c == '}' || c == ']'
}

/// Where the scalar value starting `t` ends: the first `,`, `}` or `]` at
/// or after `i`, or the end.
pub open spec fn scalar_end(t: Seq<char>, i: int) -> int
    decreases t.len() - i,
{
    if i >= t.len() {
        t.len() as int
    } else if ends_scalar(t[i]) {
        i
    } else {
        scalar_end(t, i + 1)
    }
}

/// The balanced brace or bracket run at the start of `text`, past leading
/// whitespace; for a scalar, the value up to the next separator, trimmed.
pub open spec fn balanced_spec(text: Seq<char>) -> Option<Seq<char>> {
    let t = trim_start(text);
    if t.len() == 0 {
        None
    } else if t[0] == '{' || t[0] == '[' {
        match balance_at(t, t[0], closing(t[0]), 1) {
            Some(k) => Some(t.take(k)),
            None => None,
        }
    } else {
        Some(trim(t.take(scalar_end(t, 0))))
    }
}

/// The balanced run that follows the first occurrence of `key`.
pub open spec fn section_spec(text: Seq<char>, key: Seq<char>) -> Option<Seq<char>> {
    match find(text, key) {
        Some(i) => balanced_spec(text.skip(i + key.len())),
        None => None,
    }
}

/// `"name":`
pub open spec fn field_key(name: Seq<char>) -> Seq<char> {
    seq!['"'] + name + seq!['"', ':']
}

/// The first position at or after `i` where `key` starts at nesting depth
/// one: a field of the object itself, not of anything nested in it.
pub open spec fn key_at(object: Seq<char>, key: Seq<char>, i: int) -> Option<int>
    decreases object.len() - i,
{
    if i < 0 || i >= object.len() {
        None
    } else if depth(object.take(i + 1)) == 1 && matches_at(object, i, key) {
        Some(i)
    } else {
        key_at(object, key, i + 1)
    }
}

/// The value of the field `name` of the object itself.
pub open spec fn field_spec(object: Seq<char>, name: Seq<char>) -> Option<Seq<char>> {
    let key = field_key(name);
    match key_at(object, key, 0) {
        Some(i) => balanced_spec(object.skip(i + key.len())),
        None => None,
    }
}

/// The value of the field `name` when it is a string, without its quotes.
pub open spec fn string_spec(object: Seq<char>, name: Seq<char>) -> Option<Seq<char>> {
    match field_spec(object, name) {
        None => None,
        Some(raw) => {
            let t = trim(raw);
            if t.len() >= 2 && t[0] == '"' && t.last() == '"' {
                Some(t.subrange(1, t.len() - 1))
            } else {
                None
            }
        },
    }
}

/// An array's text without its brackets, when it has both.
pub open spec fn unbracketed(array: Seq<char>) -> Seq<char> {
    let t = trim(array);
    if t.len() >= 2 && t[0] == '[' && t.last() == ']' {
        t.subrange(1, t.len() - 1)
    } else {
        t
    }
}

/// The items of `s` from `start`, scanning from `i`: split at the commas
/// outside any nesting, the last kept only when it is not blank.
pub open spec fn items_from(s: Seq<char>, start: int, i: int) -> Seq<Seq<char>>
    decreases s.len() - i,
{
    if i >= s.len() {
        if trim(s.subrange(start, s.len() as int)).len() > 0 {
            seq![s.subrange(start, s.len() as int)]
        } else {
            seq![]
        }
    } else if s[i] == ',' && depth(s.take(i)) == 0 {
        seq![s.subrange(start, i)] + items_from(s, i + 1, i + 1)
    } else {
        items_from(s, start, i + 1)
    }
}

/// The items of an array, untrimmed.
pub open spec fn array_items_spec(array: Seq<char>) -> Seq<Seq<char>> {
    items_from(unbracketed(array), 0, 0)
}

/// The kinds that take one field element.
pub open spec fn is_scalar_kind(kind: Seq<char>) -> bool {
    kind == "field"@ || kind == "integer"@ || kind == "boolean"@
}

/// How many field elements a type occupies in the public inputs; `None`
/// for a shape this reader does not know, a missing part, or a count a
/// `usize` does not hold.
pub open spec fn slots(t: Seq<char>) -> Option<nat>
    decreases t.len(), 0nat,
{
    match string_spec(t, "kind"@) {
        None => None,
        Some(kind) => if is_scalar_kind(kind) {
            Some(1)
        } else if kind == "string"@ {
            match field_spec(t, "length"@) {
                Some(length_text) => unsigned_value(trim(length_text), 10, usize::MAX as nat),
                None => None,
            }
        } else if kind == "array"@ {
            match (field_spec(t, "length"@), field_spec(t, "type"@)) {
                (Some(length_text), Some(element)) => match unsigned_value(
                    trim(length_text),
                    10,
                    usize::MAX as nat,
                ) {
                    Some(n) => if element.len() < t.len() {
                        match slots(element) {
                            Some(m) => if n * m <= usize::MAX {
                                Some(n * m)
                            } else {
                                None
                            },
                            None => None,
                        }
                    } else {
                        None
                    },
                    None => None,
                },
                _ => None,
            }
        } else if kind == "tuple"@ || kind == "struct"@ {
            match field_spec(t, "fields"@) {
                Some(fields) => if t.len() > 0 {
                    sum_slots(array_items_spec(fields), (t.len() - 1) as nat, kind == "struct"@)
                } else {
                    None
                },
                None => None,
            }
        } else {
            None
        },
    }
}

/// The slots of the items, summed: of each item itself, or with `typed`,
/// of each item's `type` field.
pub open spec fn sum_slots(items: Seq<Seq<char>>, bound: nat, typed: bool) -> Option<nat>
    decreases bound, items.len(),
{
    if items.len() == 0 {
        Some(0)
    } else {
        let element = if typed {
            field_spec(items.last(), "type"@)
        } else {
            Some(items.last())
        };
        match element {
            Some(e) => if e.len() <= bound {
                match (sum_slots(items.drop_last(), bound, typed), slots(e)) {
                    (Some(a), Some(b)) => if a + b <= usize::MAX {
                        Some(a + b)
                    } else {
                        None
                    },
                    _ => None,
                }
            } else {
                None
            },
            None => None,
        }
    }
}

// ---------------------------------------------------------------------------
// Lengths: every part read is no longer than what it was read from.
proof fn lemma_trim_start_len(s: Seq<char>)
    ensures
        crate::text::leading_space(s) <= s.len(),
    decreases s.len(),
{
    if s.len() > 0 && crate::text::is_space(s[0]) {
        lemma_trim_start_len(s.drop_first());
    }
}

proof fn lemma_trailing_len(s: Seq<char>)
    ensures
        crate::text::trailing_space(s) <= s.len(),
    decreases s.len(),
{
    if s.len() > 0 && crate::text::is_space(s.last()) {
        lemma_trailing_len(s.drop_last());
    }
}

pub proof fn lemma_trim_len(s: Seq<char>)
    ensures
        trim_start(s).len() <= s.len(),
        trim(s).len() <= s.len(),
{
    lemma_trim_start_len(s);
    lemma_trailing_len(trim_start(s));
}

proof fn lemma_balance_at_bound(t: Seq<char>, open: char, close: char, k: int)
    ensures
        balance_at(t, open, close, k) matches Some(j) ==> 1 <= j <= t.len(),
    decreases t.len() + 1 - k,
{
    if 1 <= k <= t.len() && pair_depth(t.take(k), open, close) != 0 {
        lemma_balance_at_bound(t, open, close, k + 1);
    }
}

proof fn lemma_scalar_end_bound(t: Seq<char>, i: int)
    requires
        0 <= i,
    ensures
        i <= t.len() ==> i <= scalar_end(t, i) <= t.len(),
        scalar_end(t, i) <= t.len(),
        0 <= scalar_end(t, i),
    decreases t.len() - i,
{
    if i < t.len() && !ends_scalar(t[i]) {
        lemma_scalar_end_bound(t, i + 1);
    }
}

pub proof fn lemma_balanced_len(text: Seq<char>)
    ensures
        balanced_spec(text) matches Some(r) ==> r.len() <= text.len(),
{
    let t = trim_start(text);
    lemma_trim_len(text);
    if t.len() > 0 {
        if t[0] == '{' || t[0] == '[' {
            lemma_balance_at_bound(t, t[0], closing(t[0]), 1);
        } else {
            lemma_scalar_end_bound(t, 0);
            lemma_trim_len(t.take(scalar_end(t, 0)));
        }
    }
}

proof fn lemma_key_at_bound(object: Seq<char>, key: Seq<char>, i: int)
    ensures
        key_at(object, key, i) matches Some(j) ==> i <= j && matches_at(object, j, key),
    decreases object.len() - i,
{
    if 0 <= i < object.len() && !(depth(object.take(i + 1)) == 1 && matches_at(object, i, key)) {
        lemma_key_at_bound(object, key, i + 1);
    }
}

/// A field's value is shorter than the object it was read from.
pub proof fn lemma_field_len(object: Seq<char>, name: Seq<char>)
    ensures
        field_spec(object, name) matches Some(r) ==> r.len() < object.len(),
{
    let key = field_key(name);
    lemma_key_at_bound(object, key, 0);
    if let Some(i) = key_at(object, key, 0) {
        lemma_balanced_len(object.skip(i + key.len()));
    }
}

proof fn lemma_items_from_len(s: Seq<char>, start: int, i: int)
    requires
        0 <= start <= i <= s.len(),
    ensures
        forall|k: int|
            0 <= k < items_from(s, start, i).len() ==> #[trigger] items_from(
                s,
                start,
                i,
            )[k].len() <= s.len(),
    decreases s.len() - i,
{
    if i < s.len() {
        if s[i] == ',' && depth(s.take(i)) == 0 {
            lemma_items_from_len(s, i + 1, i + 1);
            let rest = items_from(s, i + 1, i + 1);
            let all = seq![s.subrange(start, i)] + rest;
            assert forall|k: int| 0 <= k < all.len() implies #[trigger] all[k].len() <= s.len() by {
                if k > 0 {
                    assert(all[k] == rest[k - 1]);
                }
            }
        } else {
            lemma_items_from_len(s, start, i + 1);
            assert(items_from(s, start, i) == items_from(s, start, i + 1));
        }
    } else {
        let all = items_from(s, start, i);
        assert forall|k: int| 0 <= k < all.len() implies #[trigger] all[k].len() <= s.len() by {
            assert(all[k] == s.subrange(start, s.len() as int));
        }
    }
}

/// An item of an array is no longer than the array.
pub proof fn lemma_items_len(array: Seq<char>)
    ensures
        forall|k: int|
            0 <= k < array_items_spec(array).len() ==> #[trigger] array_items_spec(
                array,
            )[k].len() <= array.len(),
{
    lemma_trim_len(array);
    lemma_items_from_len(unbracketed(array), 0, 0);
}

// ---------------------------------------------------------------------------
// Reading.
/// The views of a sequence of character vectors.
pub open spec fn char_views(v: Seq<Vec<char>>) -> Seq<Seq<char>> {
    v.map_values(|x: Vec<char>| x@)
}

/// The view of an optional string.
pub open spec fn option_view(o: Option<String>) -> Option<Seq<char>> {
    match o {
        Some(s) => Some(s@),
        None => None,
    }
}

fn chars_option_view(o: Option<Vec<char>>) -> (out: Option<String>)
    ensures
        option_view(out) == (match o {
            Some(v) => Some(v@),
            None => None::<Seq<char>>,
        }),
{
    match o {
        Some(v) => Some(string_of(&v)),
        None => None,
    }
}

/// The balanced run at the start of `text`, as characters.
pub fn balanced_chars(text: &[char]) -> (r: Option<Vec<char>>)
    ensures
        (match r {
            Some(v) => Some(v@),
            None => None::<Seq<char>>,
        }) == balanced_spec(text@),
{
    let t = trimmed_start(text);
    if t.len() == 0 {
        return None;
    }
    let open = t[0];
    if open == '{' || open == '[' {
        let close = if open == '{' {
            '}'
        } else {
            ']'
        };
        let mut level: usize = 1;
        let mut i: usize = 1;
        proof {
            assert(t@.take(1).drop_last() =~= Seq::<char>::empty());
            assert(t@.take(1).last() == open);
            assert(pair_depth(Seq::<char>::empty(), open, close) == 0);
            assert(pair_depth(t@.take(1), open, close) == 1);
        }
        while i < t.len()
            invariant
                1 <= i <= t.len(),
                t@ == trim_start(text@),
                t@[0] == open,
                open == '{' || open == '[',
                close == closing(open),
                1 <= level <= i,
                level as int == pair_depth(t@.take(i as int), open, close),
                balance_at(t@, open, close, 1) == balance_at(t@, open, close, i as int),
            decreases t.len() - i,
        {
            proof {
                assert(t@.take(i + 1).drop_last() =~= t@.take(i as int));
                assert(t@.take(i + 1).last() == t@[i as int]);
                assert(balance_at(t@, open, close, i as int) == balance_at(
                    t@,
                    open,
                    close,
                    i + 1,
                ));
            }
            let c = t[i];
            if c == open {
                level += 1;
            } else if c == close {
                level -= 1;
                if level == 0 {
                    proof {
                        assert(balance_at(t@, open, close, i + 1) == Some(i + 1));
                    }
                    return Some(sub_chars(&t, 0, i + 1));
                }
            }
            i += 1;
        }
        proof {
            assert(balance_at(t@, open, close, i as int) == balance_at(
                t@,
                open,
                close,
                i + 1,
            ));
        }
        return None;
    }
    let mut end: usize = 0;
    while end < t.len() && !(t[end] == ',' || t[end] == '}' || t[end] == ']')
        invariant
            end <= t.len(),
            scalar_end(t@, 0) == scalar_end(t@, end as int),
        decreases t.len() - end,
    {
        end += 1;
    }
    let value = sub_chars(&t, 0, end);
    Some(trimmed(&value))
}

/// The balanced brace or bracket run that follows `key`.
pub fn section_chars(text: &[char], key: &[char]) -> (r: Option<Vec<char>>)
    ensures
        (match r {
            Some(v) => Some(v@),
            None => None::<Seq<char>>,
        }) == section_spec(text@, key@),
{
    match find_chars(text, key, 0) {
        Some(i) => {
            let width = key.len();
            proof {
                crate::text::lemma_find_from(text@, key@, 0);
                assert(matches_at(text@, i as int, key@));
                assert(i + width <= text.len());
            }
            let rest = sub_chars(text, i + width, text.len());
            proof {
                assert(rest@ =~= text@.skip(i + key@.len()));
            }
            balanced_chars(&rest)
        },
        None => None,
    }
}

/// The value of the field `name` of the object itself, as characters.
pub fn field_chars(object: &[char], name: &[char]) -> (r: Option<Vec<char>>)
    ensures
        (match r {
            Some(v) => Some(v@),
            None => None::<Seq<char>>,
        }) == field_spec(object@, name@),
{
    let mut key: Vec<char> = Vec::new();
    key.push('"');
    let mut n: usize = 0;
    while n < name.len()
        invariant
            n <= name.len(),
            key@ == seq!['"'] + name@.take(n as int),
        decreases name.len() - n,
    {
        key.push(name[n]);
        n += 1;
        proof {
            assert(key@ =~= seq!['"'] + name@.take(n as int));
        }
    }
    key.push('"');
    key.push(':');
    proof {
        assert(name@.take(n as int) =~= name@);
        assert(key@ =~= field_key(name@));
    }
    let mut level: i128 = 0;
    let mut index: usize = 0;
    while index < object.len()
        invariant
            index <= object.len(),
            key@ == field_key(name@),
            level as int == depth(object@.take(index as int)),
            -(index as int) <= level <= index,
            key_at(object@, key@, 0) == key_at(object@, key@, index as int),
        decreases object.len() - index,
    {
        proof {
            assert(object@.take(index + 1).drop_last() =~= object@.take(index as int));
            assert(object@.take(index + 1).last() == object@[index as int]);
        }
        let c = object[index];
        if c == '{' || c == '[' {
            level += 1;
        } else if c == '}' || c == ']' {
            level -= 1;
        }
        if level == 1 && crate::text::starts_with(&sub_chars(object, index, object.len()), &key) {
            proof {
                let tail = object@.subrange(index as int, object@.len() as int);
                assert(tail.take(key@.len() as int) =~= object@.subrange(
                    index as int,
                    index + key@.len(),
                ));
            }
            let rest = sub_chars(object, index + key.len(), object.len());
            proof {
                assert(rest@ =~= object@.skip(index + key@.len()));
            }
            return balanced_chars(&rest);
        }
        proof {
            if matches_at(object@, index as int, key@) {
                let tail = object@.subrange(index as int, object@.len() as int);
                assert(tail.take(key@.len() as int) =~= object@.subrange(
                    index as int,
                    index + key@.len(),
                ));
            }
        }
        index += 1;
    }
    None
}

/// The value of a string field, as characters, without its quotes.
pub fn string_chars(object: &[char], name: &[char]) -> (r: Option<Vec<char>>)
    ensures
        (match r {
            Some(v) => Some(v@),
            None => None::<Seq<char>>,
        }) == string_spec(object@, name@),
{
    let raw = match field_chars(object, name) {
        Some(raw) => raw,
        None => {
            return None;
        },
    };
    let t = trimmed(&raw);
    if t.len() >= 2 && t[0] == '"' && t[t.len() - 1] == '"' {
        Some(sub_chars(&t, 1, t.len() - 1))
    } else {
        None
    }
}

/// The items of an array, as characters, untrimmed.
pub fn items_chars(array: &[char]) -> (items: Vec<Vec<char>>)
    ensures
        char_views(items@) == array_items_spec(array@),
{
    let t = trimmed(array);
    let inner = if t.len() >= 2 && t[0] == '[' && t[t.len() - 1] == ']' {
        sub_chars(&t, 1, t.len() - 1)
    } else {
        t
    };
    let ghost s = inner@;
    assert(s == unbracketed(array@));
    let mut items: Vec<Vec<char>> = Vec::new();
    let mut level: i128 = 0;
    let mut start: usize = 0;
    let mut index: usize = 0;
    while index < inner.len()
        invariant
            s == inner@,
            start <= index <= inner.len(),
            level as int == depth(s.take(index as int)),
            -(index as int) <= level <= index,
            char_views(items@) + items_from(s, start as int, index as int) == items_from(s, 0, 0),
        decreases inner.len() - index,
    {
        proof {
            assert(s.take(index + 1).drop_last() =~= s.take(index as int));
            assert(s.take(index + 1).last() == s[index as int]);
        }
        let c = inner[index];
        if c == '{' || c == '[' {
            level += 1;
        } else if c == '}' || c == ']' {
            level -= 1;
        } else if c == ',' && level == 0 {
            let piece = sub_chars(&inner, start, index);
            let ghost before = items@;
            items.push(piece);
            proof {
                assert(char_views(items@) =~= char_views(before).push(piece@));
                assert(char_views(before).push(piece@) + items_from(s, index + 1, index + 1)
                    =~= char_views(before) + (seq![piece@] + items_from(
                    s,
                    index + 1,
                    index + 1,
                )));
            }
            start = index + 1;
        }
        index += 1;
    }
    let last = sub_chars(&inner, start, inner.len());
    let blank = trimmed(&last);
    if blank.len() > 0 {
        let ghost before = items@;
        items.push(last);
        proof {
            assert(char_views(items@) =~= char_views(before) + seq![last@]);
        }
    } else {
        proof {
            assert(char_views(items@) =~= char_views(items@) + Seq::<Seq<char>>::empty());
        }
    }
    items
}

/// Whether `a` holds the characters of `b`.
fn same_chars(a: &[char], b: &[char]) -> (same: bool)
    ensures
        same == (a@ == b@),
{
    if a.len() != b.len() {
        return false;
    }
    let mut i: usize = 0;
    while i < a.len()
        invariant
            a.len() == b.len(),
            i <= a.len(),
            forall|k: int| 0 <= k < i ==> a@[k] == b@[k],
        decreases a.len() - i,
    {
        if a[i] != b[i] {
            return false;
        }
        i += 1;
    }
    proof {
        assert(a@ =~= b@);
    }
    true
}

proof fn lemma_sum_none_extends(items: Seq<Seq<char>>, k: int, bound: nat, typed: bool)
    requires
        0 <= k <= items.len(),
        sum_slots(items.take(k), bound, typed) is None,
    ensures
        sum_slots(items, bound, typed) is None,
    decreases items.len() - k,
{
    if k < items.len() {
        assert(items.take(k + 1).drop_last() =~= items.take(k));
        lemma_sum_none_extends(items, k + 1, bound, typed);
    } else {
        assert(items.take(k) =~= items);
    }
}

/// How many field elements a type occupies, as `slots` says.
pub fn slots_of(t: &[char]) -> (count: Option<usize>)
    ensures
        (match count {
            Some(n) => Some(n as nat),
            None => None::<nat>,
        }) == slots(t@),
    decreases t@.len(),
{
    let kind = match string_chars(t, &chars_of("kind")) {
        Some(kind) => kind,
        None => {
            return None;
        },
    };
    if same_chars(&kind, &chars_of("field")) || same_chars(&kind, &chars_of("integer"))
        || same_chars(&kind, &chars_of("boolean")) {
        return Some(1);
    }
    if same_chars(&kind, &chars_of("string")) {
        // A string of `length` characters takes one field element each.
        let length_text = match field_chars(t, &chars_of("length")) {
            Some(l) => l,
            None => {
                return None;
            },
        };
        return match parse_unsigned(&trimmed(&length_text), 10, usize::MAX as u128) {
            Some(n) => Some(n as usize),
            None => None,
        };
    }
    if same_chars(&kind, &chars_of("array")) {
        let length_text = field_chars(t, &chars_of("length"));
        let element = field_chars(t, &chars_of("type"));
        let (length_text, element) = match (length_text, element) {
            (Some(l), Some(e)) => (l, e),
            _ => {
                return None;
            },
        };
        let length = match parse_unsigned(&trimmed(&length_text), 10, usize::MAX as u128) {
            Some(n) => n as usize,
            None => {
                return None;
            },
        };
        proof {
            lemma_field_len(t@, "type"@);
        }
        let inner = match slots_of(&element) {
            Some(m) => m,
            None => {
                return None;
            },
        };
        return length.checked_mul(inner);
    }
    let is_struct = same_chars(&kind, &chars_of("struct"));
    if !(same_chars(&kind, &chars_of("tuple")) || is_struct) {
        return None;
    }
    let fields = match field_chars(t, &chars_of("fields")) {
        Some(f) => f,
        None => {
            return None;
        },
    };
    proof {
        lemma_field_len(t@, "fields"@);
        lemma_items_len(fields@);
    }
    let items = items_chars(&fields);
    let ghost views = char_views(items@);
    let ghost bound = (t@.len() - 1) as nat;
    let mut total: usize = 0;
    let mut k: usize = 0;
    proof {
        assert(views.take(0) =~= Seq::<Seq<char>>::empty());
        assert(slots(t@) == sum_slots(views, bound, is_struct));
    }
    while k < items.len()
        invariant
            slots(t@) == sum_slots(views, bound, is_struct),
            k <= items.len(),
            views == char_views(items@),
            views == array_items_spec(fields@),
            fields@.len() < t@.len(),
            bound == t@.len() - 1,
            forall|j: int| 0 <= j < views.len() ==> #[trigger] views[j].len() <= fields@.len(),
            sum_slots(views.take(k as int), bound, is_struct) == Some(total as nat),
        decreases items.len() - k,
    {
        proof {
            assert(views.take(k + 1).drop_last() =~= views.take(k as int));
            assert(views.take(k + 1).last() == items@[k as int]@);
            assert(views[k as int].len() <= fields@.len());
        }
        let element = if is_struct {
            proof {
                lemma_field_len(items@[k as int]@, "type"@);
            }
            match field_chars(&items[k], &chars_of("type")) {
                Some(e) => e,
                None => {
                    proof {
                        assert(sum_slots(views.take(k + 1), bound, is_struct) is None);
                        lemma_sum_none_extends(views, k + 1, bound, is_struct);
                    }
                    return None;
                },
            }
        } else {
            sub_chars(&items[k], 0, items[k].len())
        };
        proof {
            assert(items@[k as int]@.subrange(0, items@[k as int]@.len() as int)
                =~= items@[k as int]@);
            let last = views.take(k + 1).last();
            let spec_element = if is_struct {
                field_spec(last, "type"@)
            } else {
                Some(last)
            };
            assert(spec_element == Some(element@));
            assert(element@.len() <= bound);
        }
        let count = match slots_of(&element) {
            Some(c) => c,
            None => {
                proof {
                    assert(sum_slots(views.take(k + 1), bound, is_struct) is None);
                    lemma_sum_none_extends(views, k + 1, bound, is_struct);
                }
                return None;
            },
        };
        total = match total.checked_add(count) {
            Some(sum) => sum,
            None => {
                proof {
                    assert(sum_slots(views.take(k + 1), bound, is_struct) is None);
                    lemma_sum_none_extends(views, k + 1, bound, is_struct);
                }
                return None;
            },
        };
        k += 1;
    }
    proof {
        assert(views.take(k as int) =~= views);
    }
    Some(total)
}

// ---------------------------------------------------------------------------
// The same, on string slices.
/// The balanced brace or bracket run that follows `key`.
pub fn section(text: &str, key: &str) -> (r: Option<String>)
    ensures
        option_view(r) == section_spec(text@, key@),
{
    chars_option_view(section_chars(&chars_of(text), &chars_of(key)))
}

/// The value of the field `name` of the object itself, not of anything
/// nested in it.
pub fn field(object: &str, name: &str) -> (r: Option<String>)
    ensures
        option_view(r) == field_spec(object@, name@),
{
    chars_option_view(field_chars(&chars_of(object), &chars_of(name)))
}

/// The value of a string field, without its quotes.
pub fn string(object: &str, name: &str) -> (r: Option<String>)
    ensures
        option_view(r) == string_spec(object@, name@),
{
    chars_option_view(string_chars(&chars_of(object), &chars_of(name)))
}

/// The items of an array, untrimmed.
pub fn array_items(array: &str) -> (items: Vec<String>)
    ensures
        string_views(items@) == array_items_spec(array@),
{
    let chars = items_chars(&chars_of(array));
    let mut items: Vec<String> = Vec::new();
    let mut k: usize = 0;
    while k < chars.len()
        invariant
            k <= chars.len(),
            string_views(items@) == char_views(chars@).take(k as int),
        decreases chars.len() - k,
    {
        let ghost before = items@;
        let item = string_of(&chars[k]);
        items.push(item);
        proof {
            assert(string_views(items@) =~= string_views(before).push(item@));
            assert(char_views(chars@).take(k + 1) =~= char_views(chars@).take(k as int).push(
                chars@[k as int]@,
            ));
        }
        k += 1;
    }
    proof {
        assert(char_views(chars@).take(k as int) =~= char_views(chars@));
    }
    items
}

/// How many field elements a type occupies in the public inputs.
pub fn slot_count(abi_type: &str) -> (count: usize)
    requires
        slots(abi_type@) is Some,
    ensures
        slots(abi_type@) == Some(count as nat),
{
    match slots_of(&chars_of(abi_type)) {
        Some(n) => n,
        None => 0,
    }
}

/// The balanced brace or bracket run at the start of `text`.
pub fn balanced(text: &str) -> (r: Option<String>)
    ensures
        option_view(r) == balanced_spec(text@),
{
    chars_option_view(balanced_chars(&chars_of(text)))
}

} // verus!
