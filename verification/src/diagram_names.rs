//! Names used by the text diagram formats: blank detection, fallback names
//! for nodes and edge ends, Mermaid attribute types and column names made
//! unique within an entity.

use vstd::prelude::*;
use vstd::string::StringExecFns;

use crate::builder::contains_string;
use crate::graph::{strings_model, LayoutGraph, LayoutNode, NodeModel};
use crate::text::{alphanumeric, chars_of, decimal, decimal_string, is_alphanumeric_char, push_char};

verus! {

/// The characters with the Unicode `White_Space` property.
pub open spec fn white_space(c: char) -> bool {
    let u = c as u32;
    ||| 0x09 <= u <= 0x0D
    ||| u == 0x20
    ||| u == 0x85
    ||| u == 0xA0
    ||| u == 0x1680
    ||| 0x2000 <= u <= 0x200A
    ||| u == 0x2028
    ||| u == 0x2029
    ||| u == 0x202F
    ||| u == 0x205F
    ||| u == 0x3000
}

/// Every character of `s` is white space (so `s` trims to nothing).
pub open spec fn blank(s: Seq<char>) -> bool {
    forall|i: int| 0 <= i < s.len() ==> white_space(#[trigger] s[i])
}

/// The first value that is not blank.
pub open spec fn first_filled(values: Seq<Seq<char>>) -> Option<Seq<char>>
    decreases values.len(),
{
    if values.len() == 0 {
        None
    } else if !blank(values[0]) {
        Some(values[0])
    } else {
        first_filled(values.drop_first())
    }
}

/// The first value that is not blank, else `prefix_N` for the one-based
/// position `N = index + 1`.
pub open spec fn fallback_name(values: Seq<Seq<char>>, prefix: Seq<char>, index: nat) -> Seq<char> {
    match first_filled(values) {
        Some(v) => v,
        None => prefix + "_"@ + decimal(index + 1),
    }
}

/// The name a diagram shows for a node: label, table name or id, whichever
/// comes first that is not blank.
pub open spec fn display_name(n: NodeModel, index: nat) -> Seq<char> {
    fallback_name(seq![n.label, n.table_name, n.id], "node"@, index)
}

/// The identifier a diagram gives a node: id, table name or label, whichever
/// comes first that is not blank.
pub open spec fn export_id(n: NodeModel, index: nat) -> Seq<char> {
    fallback_name(seq![n.id, n.table_name, n.label], "node"@, index)
}

/// The views of a list of string slices.
pub open spec fn strs_model(values: Seq<&str>) -> Seq<Seq<char>> {
    values.map_values(|v: &str| v@)
}

/// Whether `c` has the Unicode `White_Space` property.
pub fn is_white_space(c: char) -> (r: bool)
    ensures
        r == white_space(c),
{
    let u = c as u32;
    (0x09 <= u && u <= 0x0D) || u == 0x20 || u == 0x85 || u == 0xA0 || u == 0x1680 || (0x2000 <= u && u <= 0x200A)
        || u == 0x2028 || u == 0x2029 || u == 0x202F || u == 0x205F || u == 0x3000
}

/// Whether `s` is empty once trimmed.
pub fn is_blank(s: &str) -> (r: bool)
    ensures
        r == blank(s@),
{
    let chars = chars_of(s);
    for i in 0..chars.len()
        invariant
            chars@ == s@,
            forall|q: int| 0 <= q < i ==> white_space(#[trigger] s@[q]),
    {
        if !is_white_space(chars[i]) {
            return false;
        }
    }
    true
}

/// The first value that is not empty once trimmed.
pub fn first_non_empty<'a>(values: &[&'a str]) -> (r: Option<&'a str>)
    ensures
        match r {
            Some(v) => first_filled(strs_model(values@)) == Some(v@),
            None => first_filled(strs_model(values@)) is None,
        },
{
    let ghost all = strs_model(values@);
    proof {
        assert(all.subrange(0, all.len() as int) =~= all);
    }
    for i in 0..values.len()
        invariant
            all == strs_model(values@),
            first_filled(all) == first_filled(all.subrange(i as int, all.len() as int)),
    {
        let ghost rest = all.subrange(i as int, all.len() as int);
        proof {
            assert(rest[0] == values@[i as int]@);
            assert(rest.drop_first() =~= all.subrange(i + 1, all.len() as int));
        }
        if !is_blank(values[i]) {
            return Some(values[i]);
        }
    }
    proof {
        assert(all.subrange(all.len() as int, all.len() as int) =~= Seq::<Seq<char>>::empty());
    }
    None
}

/// The first value that is not empty once trimmed, else `prefix_N` for
/// `N = index + 1`.
pub fn fallback_export_name(values: &[&str], prefix: &str, index: usize) -> (s: String)
    requires
        index < usize::MAX,
    ensures
        s@ == fallback_name(strs_model(values@), prefix@, index as nat),
{
    match first_non_empty(values) {
        Some(v) => v.to_string(),
        None => {
            let mut s = String::from_str(prefix);
            s.append("_");
            let number = decimal_string(index + 1);
            s.append(number.as_str());
            s
        },
    }
}

/// The name a diagram shows for a node.
pub fn node_display_name(node: &LayoutNode, index: usize) -> (s: String)
    requires
        index < usize::MAX,
    ensures
        s@ == display_name(node.model(), index as nat),
{
    let values = [node.label.as_str(), node.table_name.as_str(), node.id.as_str()];
    let s = fallback_export_name(&values, "node", index);
    proof {
        assert(strs_model(values@) =~= seq![node.label@, node.table_name@, node.id@]);
    }
    s
}

/// The identifier a diagram gives a node.
pub fn node_export_id(node: &LayoutNode, index: usize) -> (s: String)
    requires
        index < usize::MAX,
    ensures
        s@ == export_id(node.model(), index as nat),
{
    let values = [node.id.as_str(), node.table_name.as_str(), node.label.as_str()];
    let s = fallback_export_name(&values, "node", index);
    proof {
        assert(strs_model(values@) =~= seq![node.id@, node.table_name@, node.label@]);
    }
    s
}

/// Where the white space at position `i` and after ends.
pub open spec fn skip_blank(s: Seq<char>, i: int) -> int
    decreases s.len() - i,
{
    if 0 <= i < s.len() && white_space(s[i]) {
        skip_blank(s, i + 1)
    } else {
        i
    }
}

/// Where the run of non-white-space characters at position `i` ends.
pub open spec fn word_end(s: Seq<char>, i: int) -> int
    decreases s.len() - i,
{
    if 0 <= i < s.len() && !white_space(s[i]) {
        word_end(s, i + 1)
    } else {
        i
    }
}

/// The first white-space separated word of `s` (empty if `s` is blank).
pub open spec fn first_word(s: Seq<char>) -> Seq<char> {
    let a = skip_blank(s, 0);
    s.subrange(a, word_end(s, a))
}

/// A character of a Mermaid attribute type: letters, digits and `_` stay,
/// anything else becomes `_`.
pub open spec fn token_char(c: char) -> char {
    if alphanumeric(c) || c == '_' {
        c
    } else {
        '_'
    }
}

/// The Mermaid attribute type for a column type: its first word (or
/// `unknown`), with every other character than a letter, digit or `_`
/// replaced by `_`.
pub open spec fn token_type(data_type: Seq<char>) -> Seq<char> {
    let word = first_word(data_type);
    let head = if word.len() == 0 {
        "unknown"@
    } else {
        word
    };
    head.map_values(|c: char| token_char(c))
}

/// An ASCII letter or digit.
pub open spec fn ascii_alnum(c: char) -> bool {
    let u = c as u32;
    (0x30 <= u <= 0x39) || (0x41 <= u <= 0x5A) || (0x61 <= u <= 0x7A)
}

/// An ASCII digit.
pub open spec fn ascii_digit(c: char) -> bool {
    let u = c as u32;
    0x30 <= u <= 0x39
}

/// A character of a Mermaid column name: ASCII letters, digits and `_`
/// stay, anything else becomes `_`.
pub open spec fn column_char(c: char) -> char {
    if ascii_alnum(c) || c == '_' {
        c
    } else {
        '_'
    }
}

/// The Mermaid name for column `index` called `name`: sanitized, `_`
/// prepended when it starts with a digit, `column_N` when empty.
pub open spec fn column_base(name: Seq<char>, index: nat) -> Seq<char> {
    let s = name.map_values(|c: char| column_char(c));
    if s.len() == 0 {
        "column_"@ + decimal(index + 1)
    } else if ascii_digit(s[0]) {
        seq!['_'] + s
    } else {
        s
    }
}

/// Each character of `s` in its attribute-type form (`token`) or its
/// column-name form.
fn map_chars(s: &Vec<char>, token: bool) -> (out: String)
    ensures
        out@ == s@.map_values(|c: char| if token { token_char(c) } else { column_char(c) }),
{
    let mut out = String::new();
    for i in 0..s.len()
        invariant
            out@ == s@.subrange(0, i as int).map_values(|c: char| if token { token_char(c) } else { column_char(c) }),
    {
        let c = s[i];
        let keep = if token {
            is_alphanumeric_char(c) || c == '_'
        } else {
            is_ascii_alnum(c) || c == '_'
        };
        let mapped = if keep {
            c
        } else {
            '_'
        };
        push_char(&mut out, mapped);
        proof {
            assert(s@.subrange(0, i + 1).map_values(|c: char| if token { token_char(c) } else { column_char(c) })
                =~= s@.subrange(0, i as int).map_values(|c: char| if token { token_char(c) } else { column_char(c) }).push(
                mapped,
            ));
        }
    }
    proof {
        assert(s@.subrange(0, s@.len() as int) =~= s@);
    }
    out
}

/// Whether `c` is an ASCII letter or digit.
fn is_ascii_alnum(c: char) -> (r: bool)
    ensures
        r == ascii_alnum(c),
{
    let u = c as u32;
    (0x30 <= u && u <= 0x39) || (0x41 <= u && u <= 0x5A) || (0x61 <= u && u <= 0x7A)
}

/// The Mermaid attribute type for a column type.
pub fn mermaid_token_type(data_type: &str) -> (t: String)
    ensures
        t@ == token_type(data_type@),
{
    let chars = chars_of(data_type);
    let n = chars.len();
    let mut a: usize = 0;
    while a < n && is_white_space(chars[a])
        invariant
            chars@ == data_type@,
            n == chars@.len(),
            a <= n,
            skip_blank(data_type@, 0) == skip_blank(data_type@, a as int),
        decreases n - a,
    {
        a = a + 1;
    }
    let mut b: usize = a;
    while b < n && !is_white_space(chars[b])
        invariant
            chars@ == data_type@,
            n == chars@.len(),
            a <= b <= n,
            skip_blank(data_type@, 0) == a,
            word_end(data_type@, a as int) == word_end(data_type@, b as int),
        decreases n - b,
    {
        b = b + 1;
    }
    let mut word: Vec<char> = Vec::new();
    for i in a..b
        invariant
            chars@ == data_type@,
            a <= b <= n,
            n == chars@.len(),
            word@ == data_type@.subrange(a as int, i as int),
    {
        word.push(chars[i]);
        proof {
            assert(word@ =~= data_type@.subrange(a as int, i + 1));
        }
    }
    let head = if word.len() == 0 {
        chars_of("unknown")
    } else {
        word
    };
    map_chars(&head, true)
}

/// The Mermaid name for column `index` called `name`.
pub fn mermaid_column_name(name: &str, index: usize) -> (s: String)
    requires
        index < usize::MAX,
    ensures
        s@ == column_base(name@, index as nat),
{
    let chars = chars_of(name);
    let sanitized = map_chars(&chars, false);
    let mapped = chars_of(sanitized.as_str());
    if mapped.len() == 0 {
        let mut s = String::from_str("column_");
        let number = decimal_string(index + 1);
        s.append(number.as_str());
        s
    } else if is_ascii_digit(mapped[0]) {
        let mut s = String::new();
        push_char(&mut s, '_');
        s.append(sanitized.as_str());
        proof {
            assert(s@ =~= seq!['_'] + sanitized@);
        }
        s
    } else {
        sanitized
    }
}

/// Whether `c` is an ASCII digit.
fn is_ascii_digit(c: char) -> (r: bool)
    ensures
        r == ascii_digit(c),
{
    let u = c as u32;
    0x30 <= u && u <= 0x39
}

/// `base_N`: a base name with a numeric suffix.
pub open spec fn suffixed(base: Seq<char>, s: nat) -> Seq<char> {
    base + "_"@ + decimal(s)
}

/// `s` is the least suffix from two on whose suffixed name is not in `names`.
pub open spec fn is_least_free(base: Seq<char>, names: Seq<Seq<char>>, s: nat) -> bool {
    &&& 2 <= s
    &&& !names.contains(suffixed(base, s))
    &&& forall|r: nat| 2 <= r < s ==> names.contains(#[trigger] suffixed(base, r))
}

/// The least suffix from two on whose suffixed name is free.
pub open spec fn least_free(base: Seq<char>, names: Seq<Seq<char>>) -> nat {
    choose|s: nat| is_least_free(base, names, s)
}

/// `base` if no earlier name is `base`, else `base_N` for the least free `N`
/// from two on.
pub open spec fn unique_name(base: Seq<char>, names: Seq<Seq<char>>) -> Seq<char> {
    if names.contains(base) {
        suffixed(base, least_free(base, names))
    } else {
        base
    }
}

/// The names given, in order, to columns with base names `bases`.
pub open spec fn unique_names(bases: Seq<Seq<char>>) -> Seq<Seq<char>>
    decreases bases.len(),
{
    if bases.len() == 0 {
        Seq::empty()
    } else {
        let prev = unique_names(bases.drop_last());
        prev.push(unique_name(bases.last(), prev))
    }
}

/// The base Mermaid names of a node's columns.
pub open spec fn column_bases(n: NodeModel) -> Seq<Seq<char>> {
    Seq::new(n.columns.len(), |j: int| column_base(n.columns[j].name, j as nat))
}

/// Different suffixes give different names.
proof fn lemma_suffixed_injective(base: Seq<char>, a: nat, b: nat)
    requires
        suffixed(base, a) == suffixed(base, b),
    ensures
        a == b,
{
    let head = base + "_"@;
    assert(suffixed(base, a).subrange(head.len() as int, suffixed(base, a).len() as int) =~= decimal(a));
    assert(suffixed(base, b).subrange(head.len() as int, suffixed(base, b).len() as int) =~= decimal(b));
    crate::text::lemma_decimal_injective(a, b);
}

/// If every suffix from two to `st` is taken, there are at least `st - 1` names.
proof fn lemma_taken_bound(base: Seq<char>, names: Seq<Seq<char>>, st: nat)
    requires
        forall|r: nat| 2 <= r <= st ==> names.contains(#[trigger] suffixed(base, r)),
    ensures
        st <= names.len() + 1,
{
    if st >= 2 {
        let range = vstd::set_lib::set_int_range(2, st as int + 1);
        let f = |r: int| suffixed(base, r as nat);
        let image = range.map(f);
        vstd::set_lib::lemma_int_range(2, st as int + 1);
        assert(vstd::relations::injective_on(f, range)) by {
            assert forall|x: int, y: int| range.contains(x) && range.contains(y) && #[trigger] f(x) == #[trigger] f(y) implies x == y by {
                lemma_suffixed_injective(base, x as nat, y as nat);
            }
        }
        vstd::set_lib::lemma_map_size(range, image, f);
        assert(image.subset_of(names.to_set())) by {
            assert forall|v: Seq<char>| image.contains(v) implies names.to_set().contains(v) by {
                let x = choose|x: int| range.contains(x) && f(x) == v;
                assert(names.contains(suffixed(base, x as nat)));
            }
        }
        vstd::seq_lib::seq_to_set_is_finite(names);
        vstd::set_lib::lemma_len_subset(image, names.to_set());
        names.lemma_cardinality_of_set();
    }
}

/// Some suffix from two on is free, and the least one is.
proof fn lemma_least_free(base: Seq<char>, names: Seq<Seq<char>>)
    ensures
        is_least_free(base, names, least_free(base, names)),
{
    let top = (names.len() + 2) as nat;
    if forall|r: nat| 2 <= r <= top ==> names.contains(#[trigger] suffixed(base, r)) {
        lemma_taken_bound(base, names, top);
    }
    let s0 = choose|r: nat| 2 <= r <= top && !names.contains(#[trigger] suffixed(base, r));
    lemma_least_free_below(base, names, s0);
}

/// Below a free suffix there is a least free one.
proof fn lemma_least_free_below(base: Seq<char>, names: Seq<Seq<char>>, s0: nat)
    requires
        2 <= s0,
        !names.contains(suffixed(base, s0)),
    ensures
        exists|s: nat| is_least_free(base, names, s),
    decreases s0,
{
    if forall|r: nat| 2 <= r < s0 ==> names.contains(#[trigger] suffixed(base, r)) {
        assert(is_least_free(base, names, s0));
    } else {
        let r = choose|r: nat| 2 <= r < s0 && !names.contains(#[trigger] suffixed(base, r));
        lemma_least_free_below(base, names, r);
    }
}

/// There is only one least free suffix.
proof fn lemma_least_free_unique(base: Seq<char>, names: Seq<Seq<char>>, a: nat, b: nat)
    requires
        is_least_free(base, names, a),
        is_least_free(base, names, b),
    ensures
        a == b,
{
    if a < b {
        assert(names.contains(suffixed(base, a)));
    } else if b < a {
        assert(names.contains(suffixed(base, b)));
    }
}

/// A unique name is never one of the earlier names.
proof fn lemma_unique_name_fresh(base: Seq<char>, names: Seq<Seq<char>>)
    ensures
        !names.contains(unique_name(base, names)),
{
    if names.contains(base) {
        lemma_least_free(base, names);
    }
}

/// The names given to the columns of an entity are all different, one per column.
pub proof fn lemma_unique_names_distinct(bases: Seq<Seq<char>>)
    ensures
        unique_names(bases).len() == bases.len(),
        unique_names(bases).no_duplicates(),
    decreases bases.len(),
{
    if bases.len() > 0 {
        let prev = unique_names(bases.drop_last());
        lemma_unique_names_distinct(bases.drop_last());
        lemma_unique_name_fresh(bases.last(), prev);
        let all = unique_names(bases);
        assert forall|i: int, j: int| 0 <= i < all.len() && 0 <= j < all.len() && i != j implies all[i] != all[j] by {
            if i < prev.len() && j < prev.len() {
                assert(all[i] == prev[i] && all[j] == prev[j]);
            } else if i == prev.len() {
                assert(prev.contains(all[j]) || j == i);
            } else {
                assert(prev.contains(all[i]));
            }
        }
    }
}

/// `base_N` as a string.
fn suffixed_string(base: &String, s: usize) -> (r: String)
    ensures
        r@ == suffixed(base@, s as nat),
{
    let mut r = base.clone();
    r.append("_");
    let number = decimal_string(s);
    r.append(number.as_str());
    r
}

/// The next suffix recorded for `base`, inserting `1` when there is none;
/// returns the entry's position and its suffix.
fn suffix_entry(entries: &mut Vec<(String, usize)>, base: &String) -> (r: (usize, usize))
    ensures
        r.0 < final(entries)@.len(),
        final(entries)@[r.0 as int].0@ == base@,
        final(entries)@[r.0 as int].1 == r.1,
        final(entries)@ == old(entries)@ || final(entries)@ == old(entries)@.push((final(entries)@[r.0 as int].0, 1usize)),
        final(entries)@ != old(entries)@ ==> r.1 == 1,
{
    for i in 0..entries.len()
        invariant
            entries@ == old(entries)@,
    {
        if entries[i].0 == *base {
            return (i, entries[i].1);
        }
    }
    let pos = entries.len();
    entries.push((base.clone(), 1));
    (pos, 1)
}

/// The Mermaid names of a node's columns: each column's base name, with a
/// numeric suffix where an earlier column already took that name.
pub fn mermaid_column_names(node: &LayoutNode) -> (names: Vec<String>)
    requires
        node.columns@.len() < usize::MAX,
    ensures
        strings_model(names@) == unique_names(column_bases(node.model())),
{
    let ghost bases = column_bases(node.model());
    let n = node.columns.len();
    let mut used: Vec<String> = Vec::new();
    let mut next_suffix: Vec<(String, usize)> = Vec::new();
    for index in 0..n
        invariant
            n == node.columns@.len(),
            n < usize::MAX,
            bases == column_bases(node.model()),
            used@.len() == index,
            strings_model(used@) == unique_names(bases.subrange(0, index as int)),
            forall|q: int|
                0 <= q < next_suffix@.len() ==> 1 <= (#[trigger] next_suffix@[q]).1 && forall|r: nat|
                    2 <= r <= next_suffix@[q].1 ==> strings_model(used@).contains(
                        #[trigger] suffixed(next_suffix@[q].0@, r),
                    ),
    {
        let ghost prev = strings_model(used@);
        let base = mermaid_column_name(node.columns[index].name.as_str(), index);
        proof {
            assert(node.model().columns[index as int] == node.columns@[index as int].model());
            assert(base@ == bases[index as int]);
            assert(bases.subrange(0, index + 1).drop_last() =~= bases.subrange(0, index as int));
        }
        let mut candidate = base.clone();
        if contains_string(&used, &candidate) {
            let ghost before = next_suffix@;
            let (pos, start) = suffix_entry(&mut next_suffix, &base);
            proof {
                if next_suffix@ == before {
                    assert(1 <= next_suffix@[pos as int].1);
                }
            }
            let mut suffix = start;
            loop
                invariant_except_break
                    1 <= suffix,
                    forall|r: nat| 2 <= r <= suffix ==> prev.contains(#[trigger] suffixed(base@, r)),
                invariant
                    prev == strings_model(used@),
                    used@.len() == index,
                    index < n,
                    n < usize::MAX,
                ensures
                    is_least_free(base@, prev, suffix as nat),
                    candidate@ == suffixed(base@, suffix as nat),
                decreases used@.len() + 1 - suffix,
            {
                proof {
                    lemma_taken_bound(base@, prev, suffix as nat);
                }
                suffix = suffix + 1;
                candidate = suffixed_string(&base, suffix);
                if !contains_string(&used, &candidate) {
                    break;
                }
                proof {
                    lemma_taken_bound(base@, prev, suffix as nat);
                }
            }
            proof {
                lemma_least_free(base@, prev);
                lemma_least_free_unique(base@, prev, suffix as nat, least_free(base@, prev));
            }
            next_suffix.set(pos, (base.clone(), suffix));
        }
        let ghost chosen = candidate@;
        used.push(candidate);
        proof {
            assert(chosen == unique_name(base@, prev));
            assert(strings_model(used@) =~= prev.push(chosen));
            assert forall|q: int| 0 <= q < next_suffix@.len() implies 1 <= (#[trigger] next_suffix@[q]).1 && forall|r: nat|
                2 <= r <= next_suffix@[q].1 ==> strings_model(used@).contains(#[trigger] suffixed(next_suffix@[q].0@, r)) by {
                assert forall|r: nat| 2 <= r <= next_suffix@[q].1 implies strings_model(used@).contains(
                    #[trigger] suffixed(next_suffix@[q].0@, r),
                ) by {
                    if prev.contains(suffixed(next_suffix@[q].0@, r)) {
                        let w = choose|w: int| 0 <= w < prev.len() && prev[w] == suffixed(next_suffix@[q].0@, r);
                        assert(strings_model(used@)[w] == prev[w]);
                    } else {
                        assert(strings_model(used@)[index as int] == chosen);
                    }
                }
            }
        }
    }
    proof {
        assert(bases.subrange(0, n as int) =~= bases);
    }
    used
}

} // verus!
