//! Building a layout graph from a schema: filtering, nodes and edges
//! (foreign keys, enum references, view dependencies), relationship counts,
//! join-table detection and collapsing, grouping.

use vstd::prelude::*;
use vstd::string::{StringExecFns, StringSliceAdditionalSpecFns};
use crate::graph::{
    ColumnModel, EdgeModel, LayoutColumn, LayoutEdge, LayoutNode, NodeModel, clone_opt_string, clone_strings, edges_model,
    strings_model, nodes_model, NodeIndex, CollapsedJoinTable, GroupModel, LayoutGroup, groups_model, LayoutGraph,
};
use crate::tally::tally;
use crate::schema::{
    Column, EdgeKind, Enum, FilterSpec, FocusSpec, GroupingSpec, GroupingStrategy, Schema, ForeignKey, NodeKind, SchemaView, Table, ViewColumn, opt_view, qualified_name_of,
};
use crate::text::{
    decimal, lemma_text_less_total, lemma_text_less_transitive, sorted_texts, text_less, text_less_exec, lowercase, alphanumeric, chars_of, contains_seq, find_from, is_alphanumeric_char, occurs_at, seq_contains,
};

verus! {

/// `value` starts with `prefix`.
pub open spec fn seq_starts_with(value: Seq<char>, prefix: Seq<char>) -> bool {
    prefix.len() <= value.len() && value.subrange(0, prefix.len() as int) == prefix
}

/// `value` ends with `suffix`.
pub open spec fn seq_ends_with(value: Seq<char>, suffix: Seq<char>) -> bool {
    suffix.len() <= value.len() && value.subrange(value.len() - suffix.len(), value.len() as int) == suffix
}

/// Glob matching with a leading and/or trailing `*`: `*` alone matches
/// everything, `*x*` matches values containing `x`, `*x` values ending with
/// `x`, `x*` values starting with `x`, and any other pattern only itself.
pub open spec fn pattern_matches(pattern: Seq<char>, value: Seq<char>) -> bool {
    if pattern == seq!['*'] {
        true
    } else if pattern.len() >= 2 && pattern[0] == '*' && pattern.last() == '*' {
        seq_contains(value, pattern.subrange(1, pattern.len() - 1))
    } else if pattern.len() >= 1 && pattern[0] == '*' {
        seq_ends_with(value, pattern.subrange(1, pattern.len() as int))
    } else if pattern.len() >= 1 && pattern.last() == '*' {
        seq_starts_with(value, pattern.subrange(0, pattern.len() - 1))
    } else {
        value == pattern
    }
}

/// Sub-vector `v[from..to]`.
fn slice_chars(v: &Vec<char>, from: usize, to: usize) -> (out: Vec<char>)
    requires
        from <= to <= v@.len(),
    ensures
        out@ == v@.subrange(from as int, to as int),
{
    let mut out: Vec<char> = Vec::new();
    for i in from..to
        invariant
            to <= v@.len(),
            out@ == v@.subrange(from as int, i as int),
    {
        out.push(v[i]);
        proof {
            assert(out@ =~= v@.subrange(from as int, i + 1));
        }
    }
    out
}

/// Two character vectors are equal.
fn chars_equal(a: &Vec<char>, b: &Vec<char>) -> (r: bool)
    ensures
        r == (a@ == b@),
{
    if a.len() != b.len() {
        return false;
    }
    let mut i: usize = 0;
    while i < a.len()
        invariant
            a@.len() == b@.len(),
            i <= a@.len(),
            forall|q: int| 0 <= q < i ==> a@[q] == b@[q],
        decreases a@.len() - i,
    {
        if a[i] != b[i] {
            return false;
        }
        i = i + 1;
    }
    proof {
        assert(a@ =~= b@);
    }
    true
}

/// Check if a string matches a glob pattern (simple implementation).
pub fn matches_pattern(pattern: &str, value: &str) -> (r: bool)
    ensures
        r == pattern_matches(pattern@, value@),
{
    let p = chars_of(pattern);
    let v = chars_of(value);
    let plen = p.len();
    if plen == 1 && p[0] == '*' {
        proof {
            assert(p@ =~= seq!['*']);
        }
        return true;
    }
    proof {
        if plen == 1 {
            assert(p@ != seq!['*']) by {
                assert(seq!['*'][0] == '*');
            }
        } else {
            assert(p@.len() != seq!['*'].len());
        }
    }
    if plen >= 2 && p[0] == '*' && p[plen - 1] == '*' {
        let middle = slice_chars(&p, 1, plen - 1);
        return contains_seq(&v, &middle);
    }
    if plen >= 1 && p[0] == '*' {
        let suffix = slice_chars(&p, 1, plen);
        if suffix.len() > v.len() {
            return false;
        }
        let tail = slice_chars(&v, v.len() - suffix.len(), v.len());
        return chars_equal(&tail, &suffix);
    }
    if plen >= 1 && p[plen - 1] == '*' {
        let prefix = slice_chars(&p, 0, plen - 1);
        if prefix.len() > v.len() {
            return false;
        }
        let head = slice_chars(&v, 0, prefix.len());
        return chars_equal(&head, &prefix);
    }
    chars_equal(&v, &p)
}

/// Index of the first `_` in `name`, if any.
pub open spec fn first_underscore(name: Seq<char>) -> Option<int> {
    if exists|i: int| 0 <= i < name.len() && name[i] == '_' {
        Some(choose|i: int| 0 <= i < name.len() && name[i] == '_' && forall|j: int| 0 <= j < i ==> name[j] != '_')
    } else {
        None
    }
}

/// The grouping prefix of a table name: the part before the first `_`
/// followed by `_` (e.g. `user_profile` gives `user_`); else, for names of
/// more than six bytes in UTF-8, the first three characters (all of them
/// when there are fewer) followed by `...`; else the name itself.
pub open spec fn prefix_of(name: Seq<char>) -> Seq<char> {
    if first_underscore(name) matches Some(i) && i > 0 {
        name.subrange(0, first_underscore(name)->0) + seq!['_']
    } else if vstd::utf8::encode_utf8(name).len() > 6 {
        name.subrange(0, if name.len() < 3 { name.len() as int } else { 3 }) + seq!['.', '.', '.']
    } else {
        name
    }
}

/// Extract a prefix from a table name (e.g., `user_profile` gives `user_`).
pub fn extract_prefix(name: &str) -> (prefix: String)
    ensures
        prefix@ == prefix_of(name@),
{
    let chars = chars_of(name);
    let mut pos: usize = 0;
    while pos < chars.len() && chars[pos] != '_'
        invariant
            pos <= chars@.len(),
            chars@ == name@,
            forall|j: int| 0 <= j < pos ==> chars@[j] != '_',
        decreases chars@.len() - pos,
    {
        pos = pos + 1;
    }
    proof {
        if pos < chars@.len() {
            assert(exists|i: int| 0 <= i < name@.len() && name@[i] == '_');
            let c = first_underscore(name@)->0;
            assert(c == pos as int) by {
                if c < pos {
                    assert(name@[c] != '_');
                }
                if c > pos {
                    assert(name@[pos as int] == '_');
                }
            }
        } else {
            assert(!(exists|i: int| 0 <= i < name@.len() && name@[i] == '_'));
        }
    }
    if pos < chars.len() && pos > 0 {
        let head = slice_chars(&chars, 0, pos);
        let mut out = crate::text::string_from_chars(&head);
        out.append("_");
        proof {
            reveal_strlit("_");
        }
        return out;
    }
    if name.as_bytes().len() > 6 {
        proof {
            assert(name.spec_bytes() == vstd::utf8::encode_utf8(name@));
        }
        let cut = if chars.len() < 3 { chars.len() } else { 3 };
        let head = slice_chars(&chars, 0, cut);
        let mut out = crate::text::string_from_chars(&head);
        out.append("...");
        proof {
            reveal_strlit("...");
        }
        return out;
    }
    name.to_owned()
}

/// A character that can be part of a (possibly schema-qualified) SQL
/// identifier.
pub open spec fn ident_char(c: char) -> bool {
    alphanumeric(c) || c == '_' || c == '.'
}

fn is_ident_char(c: char) -> (r: bool)
    ensures
        r == ident_char(c),
{
    is_alphanumeric_char(c) || c == '_' || c == '.'
}

/// The occurrence of `needle` at `i` stands alone: no identifier character
/// right before or right after it.
pub open spec fn stands_alone(hay: Seq<char>, needle: Seq<char>, i: int) -> bool {
    &&& (i == 0 || !ident_char(hay[i - 1]))
    &&& (i + needle.len() == hay.len() || !ident_char(hay[i + needle.len()]))
}

/// Scanning the non-overlapping occurrences of a non-empty `needle` from
/// index `i` on, left to right, finds one that stands alone.
pub open spec fn alone_occurrence_from(hay: Seq<char>, needle: Seq<char>, i: int) -> bool
    decreases hay.len() + 1 - i,
{
    if needle.len() == 0 || i < 0 || i > hay.len() {
        false
    } else if occurs_at(hay, needle, i) {
        stands_alone(hay, needle, i) || alone_occurrence_from(hay, needle, i + needle.len())
    } else {
        alone_occurrence_from(hay, needle, i + 1)
    }
}

/// Skipping positions where `needle` does not occur does not change the scan.
proof fn lemma_scan_skips(hay: Seq<char>, needle: Seq<char>, i: int, j: int)
    requires
        0 <= i <= j <= hay.len(),
        needle.len() > 0,
        forall|k: int| i <= k < j ==> !#[trigger] occurs_at(hay, needle, k),
    ensures
        alone_occurrence_from(hay, needle, i) == alone_occurrence_from(hay, needle, j),
    decreases j - i,
{
    if i < j {
        assert(!occurs_at(hay, needle, i));
        lemma_scan_skips(hay, needle, i + 1, j);
    }
}

/// Past the end, the scan finds nothing.
proof fn lemma_scan_none(hay: Seq<char>, needle: Seq<char>, i: int)
    requires
        0 <= i,
        needle.len() > 0,
        forall|k: int| i <= k ==> !#[trigger] occurs_at(hay, needle, k),
    ensures
        !alone_occurrence_from(hay, needle, i),
    decreases hay.len() + 1 - i,
{
    if i <= hay.len() {
        assert(!occurs_at(hay, needle, i));
        lemma_scan_none(hay, needle, i + 1);
    }
}

/// Check whether `needle` appears in `haystack` as a whole SQL identifier,
/// i.e. not as a part of a longer identifier. Occurrences are scanned left
/// to right without overlapping; characters that are alphanumeric, `_` or
/// `.` continue an identifier, any other character is a boundary.
pub fn contains_identifier(haystack: &str, needle: &str) -> (r: bool)
    ensures
        r == alone_occurrence_from(haystack@, needle@, 0),
{
    let h = chars_of(haystack);
    let n = chars_of(needle);
    if n.len() == 0 || n.len() > h.len() {
        proof {
            if n@.len() > 0 {
                assert forall|k: int| 0 <= k implies !#[trigger] occurs_at(h@, n@, k) by {}
                lemma_scan_none(h@, n@, 0);
            }
        }
        return false;
    }
    let mut start: usize = 0;
    while start <= h.len()
        invariant
            h@ == haystack@,
            n@ == needle@,
            n@.len() > 0,
            start <= h@.len() + n@.len(),
            alone_occurrence_from(h@, n@, 0) == alone_occurrence_from(h@, n@, start as int),
        decreases h@.len() + 1 - start,
    {
        match find_from(&h, &n, start) {
            Some(found) => {
                proof {
                    lemma_scan_skips(h@, n@, start as int, found as int);
                }
                let end = found + n.len();
                let left_ok = found == 0 || !is_ident_char(h[found - 1]);
                let right_ok = end == h.len() || !is_ident_char(h[end]);
                if left_ok && right_ok {
                    return true;
                }
                start = end;
            },
            None => {
                proof {
                    lemma_scan_none(h@, n@, start as int);
                }
                return false;
            },
        }
    }
    proof {
        assert forall|k: int| start as int <= k implies !#[trigger] occurs_at(h@, n@, k) by {}
        lemma_scan_none(h@, n@, start as int);
    }
    false
}

} // verus!

verus! {

/// Some pattern of `patterns` matches the qualified or the short name.
pub open spec fn any_pattern_matches(patterns: Seq<String>, qualified: Seq<char>, short: Seq<char>) -> bool {
    exists|i: int|
        0 <= i < patterns.len() && (pattern_matches(#[trigger] patterns[i]@, qualified) || pattern_matches(
            patterns[i]@,
            short,
        ))
}

/// The filter keeps an object: no exclude pattern matches it, and the
/// include patterns are empty or one of them matches it.
pub open spec fn filter_keeps(filter: FilterSpec, qualified: Seq<char>, short: Seq<char>) -> bool {
    &&& !any_pattern_matches(filter.exclude_patterns@, qualified, short)
    &&& (filter.include_patterns@.len() == 0 || any_pattern_matches(filter.include_patterns@, qualified, short))
}

/// Whether some pattern matches the qualified or the short name.
fn any_matches(patterns: &Vec<String>, qualified: &str, short: &str) -> (r: bool)
    ensures
        r == any_pattern_matches(patterns@, qualified@, short@),
{
    for i in 0..patterns.len()
        invariant
            forall|k: int|
                0 <= k < i ==> !(pattern_matches(#[trigger] patterns@[k]@, qualified@) || pattern_matches(
                    patterns@[k]@,
                    short@,
                )),
    {
        if matches_pattern(patterns[i].as_str(), qualified) || matches_pattern(patterns[i].as_str(), short) {
            return true;
        }
    }
    false
}

/// Whether the filter keeps an object with these names.
fn matches_filter(filter: &FilterSpec, qualified: &str, short: &str) -> (r: bool)
    ensures
        r == filter_keeps(*filter, qualified@, short@),
{
    if any_matches(&filter.exclude_patterns, qualified, short) {
        return false;
    }
    filter.include_patterns.len() == 0 || any_matches(&filter.include_patterns, qualified, short)
}

/// The filter keeps this table.
pub open spec fn keeps_table(filter: FilterSpec, t: Table) -> bool {
    filter_keeps(filter, qualified_name_of(opt_view(t.schema_name), t.name@), t.name@)
}

/// The filter keeps this view.
pub open spec fn keeps_view(filter: FilterSpec, v: SchemaView) -> bool {
    filter_keeps(filter, qualified_name_of(opt_view(v.schema_name), v.name@), v.name@)
}

/// The filter keeps this enum.
pub open spec fn keeps_enum(filter: FilterSpec, e: Enum) -> bool {
    filter_keeps(filter, qualified_name_of(opt_view(e.schema_name), e.name@), e.name@)
}

/// Indices of the tables the filter keeps, in order.
fn filter_tables(filter: &FilterSpec, tables: &Vec<Table>) -> (kept: Vec<usize>)
    ensures
        kept@.map_values(|i: usize| tables@[i as int]) == tables@.filter(|t: Table| keeps_table(*filter, t)),
        forall|k: int| 0 <= k < kept@.len() ==> #[trigger] kept@[k] < tables@.len(),
{
    let mut kept: Vec<usize> = Vec::new();
    for i in 0..tables.len()
        invariant
            kept@.map_values(|q: usize| tables@[q as int]) == tables@.subrange(0, i as int).filter(
                |t: Table| keeps_table(*filter, t),
            ),
            forall|k: int| 0 <= k < kept@.len() ==> #[trigger] kept@[k] < i,
    {
        let table = &tables[i];
        let q = table.qualified_name();
        let keep = matches_filter(filter, q.as_str(), table.name.as_str());
        proof {
            assert(tables@.subrange(0, i + 1) =~= tables@.subrange(0, i as int).push(tables@[i as int]));
            tables@.subrange(0, i as int).lemma_filter_push(tables@[i as int], |t: Table| keeps_table(*filter, t));
        }
        if keep {
            kept.push(i);
            proof {
                assert(kept@.map_values(|q: usize| tables@[q as int]) =~= tables@.subrange(0, i as int).filter(
                    |t: Table| keeps_table(*filter, t),
                ).push(tables@[i as int]));
            }
        }
    }
    proof {
        assert(tables@.subrange(0, tables@.len() as int) =~= tables@);
    }
    kept
}

/// Indices of the views the filter keeps, in order.
fn filter_views(filter: &FilterSpec, views: &Vec<SchemaView>) -> (kept: Vec<usize>)
    ensures
        kept@.map_values(|i: usize| views@[i as int]) == views@.filter(|v: SchemaView| keeps_view(*filter, v)),
        forall|k: int| 0 <= k < kept@.len() ==> #[trigger] kept@[k] < views@.len(),
{
    let mut kept: Vec<usize> = Vec::new();
    for i in 0..views.len()
        invariant
            kept@.map_values(|q: usize| views@[q as int]) == views@.subrange(0, i as int).filter(
                |v: SchemaView| keeps_view(*filter, v),
            ),
            forall|k: int| 0 <= k < kept@.len() ==> #[trigger] kept@[k] < i,
    {
        let view = &views[i];
        let q = view.qualified_name();
        let keep = matches_filter(filter, q.as_str(), view.name.as_str());
        proof {
            assert(views@.subrange(0, i + 1) =~= views@.subrange(0, i as int).push(views@[i as int]));
            views@.subrange(0, i as int).lemma_filter_push(views@[i as int], |v: SchemaView| keeps_view(*filter, v));
        }
        if keep {
            kept.push(i);
            proof {
                assert(kept@.map_values(|q: usize| views@[q as int]) =~= views@.subrange(0, i as int).filter(
                    |v: SchemaView| keeps_view(*filter, v),
                ).push(views@[i as int]));
            }
        }
    }
    proof {
        assert(views@.subrange(0, views@.len() as int) =~= views@);
    }
    kept
}

/// Indices of the enums the filter keeps, in order.
fn filter_enums(filter: &FilterSpec, enums: &Vec<Enum>) -> (kept: Vec<usize>)
    ensures
        kept@.map_values(|i: usize| enums@[i as int]) == enums@.filter(|e: Enum| keeps_enum(*filter, e)),
        forall|k: int| 0 <= k < kept@.len() ==> #[trigger] kept@[k] < enums@.len(),
{
    let mut kept: Vec<usize> = Vec::new();
    for i in 0..enums.len()
        invariant
            kept@.map_values(|q: usize| enums@[q as int]) == enums@.subrange(0, i as int).filter(
                |e: Enum| keeps_enum(*filter, e),
            ),
            forall|k: int| 0 <= k < kept@.len() ==> #[trigger] kept@[k] < i,
    {
        let enum_type = &enums[i];
        let q = enum_type.qualified_name();
        let keep = matches_filter(filter, q.as_str(), enum_type.name.as_str());
        proof {
            assert(enums@.subrange(0, i + 1) =~= enums@.subrange(0, i as int).push(enums@[i as int]));
            enums@.subrange(0, i as int).lemma_filter_push(enums@[i as int], |e: Enum| keeps_enum(*filter, e));
        }
        if keep {
            kept.push(i);
            proof {
                assert(kept@.map_values(|q: usize| enums@[q as int]) =~= enums@.subrange(0, i as int).filter(
                    |e: Enum| keeps_enum(*filter, e),
                ).push(enums@[i as int]));
            }
        }
    }
    proof {
        assert(enums@.subrange(0, enums@.len() as int) =~= enums@);
    }
    kept
}

} // verus!

verus! {

/// The column model of a table column.
pub open spec fn column_model_of(c: Column) -> ColumnModel {
    ColumnModel { name: c.name@, data_type: c.data_type@, nullable: c.nullable, is_primary_key: c.is_primary_key }
}

/// A fresh node: no relationships counted, not a join table, no group.
pub open spec fn fresh_node(
    id: Seq<char>,
    label: Seq<char>,
    schema_name: Option<Seq<char>>,
    table_name: Seq<char>,
    kind: NodeKind,
    columns: Seq<ColumnModel>,
) -> NodeModel {
    NodeModel {
        id,
        label,
        schema_name,
        table_name,
        kind,
        columns,
        inbound_count: 0,
        outbound_count: 0,
        has_self_loop: false,
        is_join_table_candidate: false,
        group_index: None,
    }
}

/// The node of a table.
pub open spec fn table_node_model(t: Table) -> NodeModel {
    fresh_node(
        t.stable_id@,
        qualified_name_of(opt_view(t.schema_name), t.name@),
        opt_view(t.schema_name),
        t.name@,
        NodeKind::Table,
        t.columns@.map_values(|c: Column| column_model_of(c)),
    )
}

/// The node of a view.
pub open spec fn view_node_model(v: SchemaView) -> NodeModel {
    fresh_node(
        v.id@,
        qualified_name_of(opt_view(v.schema_name), v.name@),
        opt_view(v.schema_name),
        v.name@,
        NodeKind::View,
        v.columns@.map_values(
            |c: ViewColumn| ColumnModel { name: c.name@, data_type: c.data_type@, nullable: c.nullable, is_primary_key: false },
        ),
    )
}

/// The node of an enum: one column per label.
pub open spec fn enum_node_model(e: Enum) -> NodeModel {
    fresh_node(
        e.id@,
        qualified_name_of(opt_view(e.schema_name), e.name@),
        opt_view(e.schema_name),
        e.name@,
        NodeKind::Enum,
        e.values@.map_values(
            |v: String| ColumnModel { name: v@, data_type: Seq::empty(), nullable: false, is_primary_key: false },
        ),
    )
}

fn table_node(t: &Table) -> (n: LayoutNode)
    ensures
        n.model() == table_node_model(*t),
{
    let mut columns: Vec<LayoutColumn> = Vec::new();
    for i in 0..t.columns.len()
        invariant
            columns@.len() == i,
            columns@.map_values(|c: LayoutColumn| c.model()) == t.columns@.subrange(0, i as int).map_values(
                |c: Column| column_model_of(c),
            ),
    {
        let c = &t.columns[i];
        let ghost prev = columns@;
        columns.push(
            LayoutColumn {
                name: c.name.clone(),
                data_type: c.data_type.clone(),
                nullable: c.nullable,
                is_primary_key: c.is_primary_key,
            },
        );
        proof {
            assert(columns@ == prev.push(columns@[i as int]));
            assert(columns@.map_values(|c: LayoutColumn| c.model()) =~= prev.map_values(|c: LayoutColumn| c.model()).push(
                columns@[i as int].model(),
            ));
            assert(t.columns@.subrange(0, i + 1).map_values(|c: Column| column_model_of(c)) =~= t.columns@.subrange(0, i as int).map_values(
                |c: Column| column_model_of(c),
            ).push((|c: Column| column_model_of(c))(t.columns@[i as int])));
            assert(columns@[i as int].model() == (|c: Column| column_model_of(c))(t.columns@[i as int]));
        }
    }
    proof {
        assert(t.columns@.subrange(0, t.columns@.len() as int) =~= t.columns@);
    }
    let n = LayoutNode {
        id: t.stable_id.clone(),
        label: t.qualified_name(),
        schema_name: clone_opt_string(&t.schema_name),
        table_name: t.name.clone(),
        kind: NodeKind::Table,
        columns,
        inbound_count: 0,
        outbound_count: 0,
        has_self_loop: false,
        is_join_table_candidate: false,
        group_index: None,
    };
    proof {
        let built = n.columns@.map_values(|c: LayoutColumn| c.model());
        assert forall|i: int| 0 <= i < n.columns@.len() implies #[trigger] n.model().columns[i] == table_node_model(*t).columns[i] by {
            assert(built[i] == n.columns@[i].model());
            assert(t.columns@.map_values(|c: Column| column_model_of(c))[i] == table_node_model(*t).columns[i]);
        }
        assert(n.model().columns =~= table_node_model(*t).columns);
    }
    n
}

fn view_node(v: &SchemaView) -> (n: LayoutNode)
    ensures
        n.model() == view_node_model(*v),
{
    let mut columns: Vec<LayoutColumn> = Vec::new();
    for i in 0..v.columns.len()
        invariant
            columns@.len() == i,
            columns@.map_values(|c: LayoutColumn| c.model()) == v.columns@.subrange(0, i as int).map_values(
                |c: ViewColumn| ColumnModel { name: c.name@, data_type: c.data_type@, nullable: c.nullable, is_primary_key: false },
            ),
    {
        let c = &v.columns[i];
        let ghost prev = columns@;
        columns.push(
            LayoutColumn {
                name: c.name.clone(),
                data_type: c.data_type.clone(),
                nullable: c.nullable,
                is_primary_key: false,
            },
        );
        proof {
            assert(columns@ == prev.push(columns@[i as int]));
            assert(columns@.map_values(|c: LayoutColumn| c.model()) =~= prev.map_values(|c: LayoutColumn| c.model()).push(
                columns@[i as int].model(),
            ));
            assert(v.columns@.subrange(0, i + 1).map_values(|c: ViewColumn| ColumnModel { name: c.name@, data_type: c.data_type@, nullable: c.nullable, is_primary_key: false }) =~= v.columns@.subrange(0, i as int).map_values(
                |c: ViewColumn| ColumnModel { name: c.name@, data_type: c.data_type@, nullable: c.nullable, is_primary_key: false },
            ).push((|c: ViewColumn| ColumnModel { name: c.name@, data_type: c.data_type@, nullable: c.nullable, is_primary_key: false })(v.columns@[i as int])));
            assert(columns@[i as int].model() == (|c: ViewColumn| ColumnModel { name: c.name@, data_type: c.data_type@, nullable: c.nullable, is_primary_key: false })(v.columns@[i as int]));
        }
    }
    proof {
        assert(v.columns@.subrange(0, v.columns@.len() as int) =~= v.columns@);
    }
    let n = LayoutNode {
        id: v.id.clone(),
        label: v.qualified_name(),
        schema_name: clone_opt_string(&v.schema_name),
        table_name: v.name.clone(),
        kind: NodeKind::View,
        columns,
        inbound_count: 0,
        outbound_count: 0,
        has_self_loop: false,
        is_join_table_candidate: false,
        group_index: None,
    };
    proof {
        let built = n.columns@.map_values(|c: LayoutColumn| c.model());
        assert forall|i: int| 0 <= i < n.columns@.len() implies #[trigger] n.model().columns[i] == view_node_model(*v).columns[i] by {
            assert(built[i] == n.columns@[i].model());
            assert(v.columns@.map_values(|c: ViewColumn| ColumnModel { name: c.name@, data_type: c.data_type@, nullable: c.nullable, is_primary_key: false })[i] == view_node_model(*v).columns[i]);
        }
        assert(n.model().columns =~= view_node_model(*v).columns);
    }
    n
}

fn enum_node(e: &Enum) -> (n: LayoutNode)
    ensures
        n.model() == enum_node_model(*e),
{
    let mut columns: Vec<LayoutColumn> = Vec::new();
    for i in 0..e.values.len()
        invariant
            columns@.len() == i,
            columns@.map_values(|c: LayoutColumn| c.model()) == e.values@.subrange(0, i as int).map_values(
                |v: String| ColumnModel { name: v@, data_type: Seq::empty(), nullable: false, is_primary_key: false },
            ),
    {
        let ghost prev = columns@;
        columns.push(
            LayoutColumn { name: e.values[i].clone(), data_type: String::new(), nullable: false, is_primary_key: false },
        );
        proof {
            assert(columns@ == prev.push(columns@[i as int]));
            assert(columns@.map_values(|c: LayoutColumn| c.model()) =~= prev.map_values(|c: LayoutColumn| c.model()).push(
                columns@[i as int].model(),
            ));
            assert(e.values@.subrange(0, i + 1).map_values(|v: String| ColumnModel { name: v@, data_type: Seq::empty(), nullable: false, is_primary_key: false }) =~= e.values@.subrange(0, i as int).map_values(
                |v: String| ColumnModel { name: v@, data_type: Seq::empty(), nullable: false, is_primary_key: false },
            ).push((|v: String| ColumnModel { name: v@, data_type: Seq::empty(), nullable: false, is_primary_key: false })(e.values@[i as int])));
            assert(columns@[i as int].model() == (|v: String| ColumnModel { name: v@, data_type: Seq::empty(), nullable: false, is_primary_key: false })(e.values@[i as int]));
        }
    }
    proof {
        assert(e.values@.subrange(0, e.values@.len() as int) =~= e.values@);
    }
    let n = LayoutNode {
        id: e.id.clone(),
        label: e.qualified_name(),
        schema_name: clone_opt_string(&e.schema_name),
        table_name: e.name.clone(),
        kind: NodeKind::Enum,
        columns,
        inbound_count: 0,
        outbound_count: 0,
        has_self_loop: false,
        is_join_table_candidate: false,
        group_index: None,
    };
    proof {
        let built = n.columns@.map_values(|c: LayoutColumn| c.model());
        assert forall|i: int| 0 <= i < n.columns@.len() implies #[trigger] n.model().columns[i] == enum_node_model(*e).columns[i] by {
            assert(built[i] == n.columns@[i].model());
            assert(e.values@.map_values(|v: String| ColumnModel { name: v@, data_type: Seq::empty(), nullable: false, is_primary_key: false })[i] == enum_node_model(*e).columns[i]);
        }
        assert(n.model().columns =~= enum_node_model(*e).columns);
    }
    n
}

} // verus!

verus! {

/// The first column named `name` is nullable (false when there is none).
pub open spec fn first_column_nullable(cols: Seq<Column>, name: Seq<char>) -> bool
    decreases cols.len(),
{
    if cols.len() == 0 {
        false
    } else if cols[0].name@ == name {
        cols[0].nullable
    } else {
        first_column_nullable(cols.drop_first(), name)
    }
}

/// A foreign key is nullable when each of its columns is a nullable column
/// of the table.
pub open spec fn fk_nullable(t: Table, fk: ForeignKey) -> bool {
    forall|i: int| 0 <= i < fk.from_columns@.len() ==> first_column_nullable(t.columns@, #[trigger] fk.from_columns@[i]@)
}

/// A foreign key that points back at its own table (by stable id or name).
pub open spec fn fk_is_self_loop(t: Table, fk: ForeignKey) -> bool {
    fk.to_table@ == t.stable_id@ || fk.to_table@ == t.name@
}

/// `t` has `target` as stable id or name.
pub open spec fn table_named(t: Table, target: Seq<char>) -> bool {
    t.stable_id@ == target || t.name@ == target
}

/// Some table of `tables` has `target` as stable id or name.
pub open spec fn names_table(tables: Seq<Table>, target: Seq<char>) -> bool {
    exists|i: int| 0 <= i < tables.len() && #[trigger] table_named(tables[i], target)
}

/// A foreign key gives an edge when it is a self-loop or its target is one
/// of the tables of the graph.
pub open spec fn fk_kept(tables: Seq<Table>, t: Table, fk: ForeignKey) -> bool {
    fk_is_self_loop(t, fk) || names_table(tables, fk.to_table@)
}

/// The edge of a foreign key.
pub open spec fn fk_edge_model(t: Table, fk: ForeignKey) -> EdgeModel {
    EdgeModel {
        from: t.stable_id@,
        to: fk.to_table@,
        name: opt_view(fk.name),
        from_columns: strings_model(fk.from_columns@),
        to_columns: strings_model(fk.to_columns@),
        kind: EdgeKind::ForeignKey,
        is_self_loop: fk_is_self_loop(t, fk),
        nullable: fk_nullable(t, fk),
        is_collapsed_join: false,
        collapsed_join_table: None,
    }
}

/// The foreign-key edges of a table, in declaration order.
pub open spec fn fk_edges(tables: Seq<Table>, t: Table) -> Seq<EdgeModel> {
    t.foreign_keys@.filter(|fk: ForeignKey| fk_kept(tables, t, fk)).map_values(|fk: ForeignKey| fk_edge_model(t, fk))
}

/// Whether the first column named `name` is nullable.
fn first_column_nullable_exec(cols: &Vec<Column>, name: &String) -> (r: bool)
    ensures
        r == first_column_nullable(cols@, name@),
{
    proof {
        lemma_first_column_nullable_start(cols@, name@);
    }
    let mut i: usize = 0;
    while i < cols.len()
        invariant
            i <= cols@.len(),
            first_column_nullable(cols@, name@) == first_column_nullable(cols@.subrange(i as int, cols@.len() as int), name@),
        decreases cols@.len() - i,
    {
        proof {
            let rest = cols@.subrange(i as int, cols@.len() as int);
            assert(rest.drop_first() =~= cols@.subrange(i + 1, cols@.len() as int));
            assert(rest[0] == cols@[i as int]);
        }
        if cols[i].name == *name {
            return cols[i].nullable;
        }
        i = i + 1;
    }
    proof {
        assert(cols@.subrange(i as int, cols@.len() as int).len() == 0);
    }
    false
}

proof fn lemma_first_column_nullable_start(cols: Seq<Column>, name: Seq<char>)
    ensures
        first_column_nullable(cols, name) == first_column_nullable(cols.subrange(0, cols.len() as int), name),
{
    assert(cols.subrange(0, cols.len() as int) =~= cols);
}

/// Whether the foreign key's columns are all nullable columns of the table.
fn fk_nullable_exec(t: &Table, fk: &ForeignKey) -> (r: bool)
    ensures
        r == fk_nullable(*t, *fk),
{
    for c in 0..fk.from_columns.len()
        invariant
            forall|q: int| 0 <= q < c ==> first_column_nullable(t.columns@, #[trigger] fk.from_columns@[q]@),
    {
        if !first_column_nullable_exec(&t.columns, &fk.from_columns[c]) {
            return false;
        }
    }
    true
}

/// The edges of `t`'s foreign keys, keeping those whose target is among the
/// kept tables (or that point back at `t`).
fn fk_edges_of(t: &Table, all_tables: &Vec<Table>, kept: &Vec<usize>) -> (edges: Vec<LayoutEdge>)
    requires
        forall|k: int| 0 <= k < kept@.len() ==> #[trigger] kept@[k] < all_tables@.len(),
    ensures
        edges_model(edges@) == fk_edges(kept@.map_values(|i: usize| all_tables@[i as int]), *t),
{
    let ghost tables = kept@.map_values(|i: usize| all_tables@[i as int]);
    let mut edges: Vec<LayoutEdge> = Vec::new();
    proof {
        assert(t.foreign_keys@.subrange(0, 0).filter(|fk: ForeignKey| fk_kept(tables, *t, fk)) =~= Seq::<ForeignKey>::empty());
        assert(edges_model(edges@) =~= Seq::<EdgeModel>::empty());
        assert(Seq::<ForeignKey>::empty().map_values(|fk: ForeignKey| fk_edge_model(*t, fk)) =~= Seq::<EdgeModel>::empty());
    }
    for f in 0..t.foreign_keys.len()
        invariant
            tables == kept@.map_values(|i: usize| all_tables@[i as int]),
            forall|k: int| 0 <= k < kept@.len() ==> #[trigger] kept@[k] < all_tables@.len(),
            edges_model(edges@) == t.foreign_keys@.subrange(0, f as int).filter(|fk: ForeignKey| fk_kept(tables, *t, fk)).map_values(
                |fk: ForeignKey| fk_edge_model(*t, fk),
            ),
    {
        let fk = &t.foreign_keys[f];
        let is_self_loop = fk.to_table == t.stable_id || fk.to_table == t.name;
        let nullable = fk_nullable_exec(t, fk);
        let mut present = false;
        for k in 0..kept.len()
            invariant
                tables == kept@.map_values(|i: usize| all_tables@[i as int]),
                forall|q: int| 0 <= q < kept@.len() ==> #[trigger] kept@[q] < all_tables@.len(),
                present == exists|q: int| 0 <= q < k && #[trigger] table_named(tables[q], fk.to_table@),
        {
            let other = &all_tables[kept[k]];
            proof {
                assert(tables[k as int] == all_tables@[kept@[k as int] as int]);
                assert(table_named(tables[k as int], fk.to_table@) == (other.stable_id@ == fk.to_table@ || other.name@
                    == fk.to_table@));
            }
            if other.stable_id == fk.to_table || other.name == fk.to_table {
                present = true;
            }
        }
        let ghost prev = edges@;
        proof {
            assert(t.foreign_keys@.subrange(0, f + 1) =~= t.foreign_keys@.subrange(0, f as int).push(t.foreign_keys@[f as int]));
            t.foreign_keys@.subrange(0, f as int).lemma_filter_push(t.foreign_keys@[f as int], |fk: ForeignKey| fk_kept(tables, *t, fk));
        }
        if is_self_loop || present {
            let edge = LayoutEdge {
                from: t.stable_id.clone(),
                to: fk.to_table.clone(),
                name: clone_opt_string(&fk.name),
                from_columns: clone_strings(&fk.from_columns),
                to_columns: clone_strings(&fk.to_columns),
                kind: EdgeKind::ForeignKey,
                is_self_loop,
                nullable,
                is_collapsed_join: false,
                collapsed_join_table: None,
            };
            edges.push(edge);
            proof {
                assert(edges@ == prev.push(edge));
                assert(edges_model(edges@) =~= edges_model(prev).push(edge.model()));
                assert(edge.model() == fk_edge_model(*t, *fk));
            }
        }
    }
    proof {
        assert(t.foreign_keys@.subrange(0, t.foreign_keys@.len() as int) =~= t.foreign_keys@);
    }
    edges
}

/// An enum as the index stores it: lowercased name, lowercased schema name,
/// stable id.
pub open spec fn enum_entry(e: Enum) -> (Seq<char>, Option<Seq<char>>, Seq<char>) {
    (
        lowercase(e.name@),
        match e.schema_name {
            Some(s) => Some(lowercase(s@)),
            None => None,
        },
        e.id@,
    )
}

/// Enum types of the graph by lowercased name, for resolving column types.
#[derive(Debug)]
pub struct EnumIndex {
    /// `(lowercased name, lowercased schema name, stable id)` per enum, in order.
    pub entries: Vec<(String, Option<String>, String)>,
}

impl EnumIndex {
    /// The content of the index.
    pub open spec fn model(&self) -> Seq<(Seq<char>, Option<Seq<char>>, Seq<char>)> {
        self.entries@.map_values(|x: (String, Option<String>, String)| (x.0@, opt_view(x.1), x.2@))
    }
}

/// The stable id of the last enum whose `schema.name` is `dt`.
pub open spec fn exact_enum(entries: Seq<(Seq<char>, Option<Seq<char>>, Seq<char>)>, dt: Seq<char>) -> Option<Seq<char>>
    decreases entries.len(),
{
    if entries.len() == 0 {
        None
    } else {
        let e = entries.last();
        match e.1 {
            Some(s) => if s + seq!['.'] + e.0 == dt {
                Some(e.2)
            } else {
                exact_enum(entries.drop_last(), dt)
            },
            None => exact_enum(entries.drop_last(), dt),
        }
    }
}

/// The enum a column type names: a `schema.name` type resolves to that enum;
/// otherwise the enums with that (lowercased) name are the candidates, and a
/// single candidate wins, or else the single candidate in the table's schema.
pub open spec fn resolve_enum(
    entries: Seq<(Seq<char>, Option<Seq<char>>, Seq<char>)>,
    table_schema: Option<Seq<char>>,
    data_type: Seq<char>,
) -> Option<Seq<char>> {
    let dt = lowercase(data_type);
    if seq_contains(dt, seq!['.']) && exact_enum(entries, dt) is Some {
        exact_enum(entries, dt)
    } else {
        let candidates = entries.filter(|e: (Seq<char>, Option<Seq<char>>, Seq<char>)| e.0 == dt);
        if candidates.len() == 0 {
            None
        } else if candidates.len() == 1 {
            Some(candidates[0].2)
        } else {
            match table_schema {
                Some(ts) => {
                    let matching = candidates.filter(
                        |e: (Seq<char>, Option<Seq<char>>, Seq<char>)| e.1 == Some(lowercase(ts)),
                    );
                    if matching.len() == 1 {
                        Some(matching[0].2)
                    } else {
                        None
                    }
                },
                None => None,
            }
        }
    }
}

impl EnumIndex {
    /// Adds an enum: its lowercased name and schema name, and its stable id.
    fn insert(&mut self, enum_type: &Enum)
        ensures
            final(self).model() == old(self).model().push(enum_entry(*enum_type)),
    {
        let name = crate::text::to_lower(enum_type.name.as_str());
        let schema = match &enum_type.schema_name {
            Some(s) => Some(crate::text::to_lower(s.as_str())),
            None => None,
        };
        let id = enum_type.id.clone();
        let ghost entry = (name, schema, id);
        proof {
            assert((entry.0@, opt_view(entry.1), entry.2@) == enum_entry(*enum_type));
        }
        self.entries.push((name, schema, id));
        proof {
            assert(self.model() =~= old(self).model().push(enum_entry(*enum_type)));
        }
    }

    /// Indexes the kept enums, in order.
    fn new(all_enums: &Vec<Enum>, kept: &Vec<usize>) -> (index: Self)
        requires
            forall|k: int| 0 <= k < kept@.len() ==> #[trigger] kept@[k] < all_enums@.len(),
        ensures
            index.model() == kept@.map_values(|i: usize| all_enums@[i as int]).map_values(|e: Enum| enum_entry(e)),
    {
        let ghost target = kept@.map_values(|i: usize| all_enums@[i as int]).map_values(|e: Enum| enum_entry(e));
        let mut index = EnumIndex { entries: Vec::new() };
        proof {
            assert(index.model() =~= target.subrange(0, 0));
        }
        for k in 0..kept.len()
            invariant
                forall|q: int| 0 <= q < kept@.len() ==> #[trigger] kept@[q] < all_enums@.len(),
                target == kept@.map_values(|i: usize| all_enums@[i as int]).map_values(|e: Enum| enum_entry(e)),
                index.model() == target.subrange(0, k as int),
        {
            index.insert(&all_enums[kept[k]]);
            proof {
                assert(index.model() =~= target.subrange(0, k + 1));
            }
        }
        proof {
            assert(target.subrange(0, kept@.len() as int) =~= target);
        }
        index
    }

    /// The enum a column's type refers to, if any.
    fn resolve(&self, table_schema: &Option<String>, data_type: &str) -> (r: Option<String>)
        ensures
            opt_view(r) == resolve_enum(self.model(), opt_view(*table_schema), data_type@),
    {
        let ghost entries = self.model();
        let dt = crate::text::to_lower(data_type);
        let dt_chars = chars_of(dt.as_str());
        let dot = vec!['.'];
        proof {
            assert(entries.subrange(0, entries.len() as int) =~= entries);
            assert(dot@ =~= seq!['.']);
        }
        if contains_seq(&dt_chars, &dot) {
            let mut i = self.entries.len();
            proof {
                assert(entries.len() == self.entries@.len());
                assert(seq_contains(dt@, seq!['.']));
            }
            while i > 0
                invariant
                    i <= self.entries@.len(),
                    entries == self.model(),
                    dt@ == lowercase(data_type@),
                    seq_contains(dt@, seq!['.']),
                    exact_enum(entries, dt@) == exact_enum(entries.subrange(0, i as int), dt@),
                decreases i,
            {
                let ghost pre = entries.subrange(0, i as int);
                proof {
                    assert(pre.drop_last() =~= entries.subrange(0, i - 1));
                    assert(pre.last() == entries[i - 1]);
                }
                let entry = &self.entries[i - 1];
                proof {
                    assert(entries[i - 1] == (entry.0@, opt_view(entry.1), entry.2@));
                }
                match &entry.1 {
                    Some(schema) => {
                        let key = crate::text::concat_str(crate::text::concat_str(schema.as_str(), ".").as_str(), entry.0.as_str());
                        proof {
                            reveal_strlit(".");
                            assert(key@ == schema@ + seq!['.'] + entry.0@);
                        }
                        if key == dt {
                            proof {
                                assert(pre.last().1 == Some(schema@));
                                assert(exact_enum(pre, dt@) == Some(entry.2@));
                                assert(seq_contains(dt@, seq!['.']));
                                assert(exact_enum(entries, dt@) == Some(entry.2@));
                                assert(resolve_enum(entries, opt_view(*table_schema), data_type@) == Some(entry.2@));
                            }
                            let id = entry.2.clone();
                            return Some(id);
                        }
                    },
                    None => {},
                }
                i = i - 1;
            }
            proof {
                assert(entries.subrange(0, 0) =~= Seq::<(Seq<char>, Option<Seq<char>>, Seq<char>)>::empty());
                assert(exact_enum(entries, dt@) is None);
            }
        }
        proof {
            assert(!(seq_contains(dt@, seq!['.']) && exact_enum(entries, dt@) is Some));
        }
        proof {
            assert(entries.subrange(0, entries.len() as int) =~= entries);
        }
        let ghost by_name = |e: (Seq<char>, Option<Seq<char>>, Seq<char>)| e.0 == dt@;
        proof {
            assert(by_name =~= (|e: (Seq<char>, Option<Seq<char>>, Seq<char>)| e.0 == lowercase(data_type@)));
        }
        let mut count: usize = 0;
        let mut first: usize = 0;
        for i in 0..self.entries.len()
            invariant
                entries == self.model(),
                by_name == (|e: (Seq<char>, Option<Seq<char>>, Seq<char>)| e.0 == dt@),
                count == entries.subrange(0, i as int).filter(by_name).len(),
                count > 0 ==> first < i && entries[first as int] == entries.subrange(0, i as int).filter(by_name)[0],
        {
            proof {
                assert(entries.subrange(0, i + 1) =~= entries.subrange(0, i as int).push(entries[i as int]));
                entries.subrange(0, i as int).lemma_filter_push(entries[i as int], by_name);
            }
            proof {
                assert(entries[i as int].0 == self.entries@[i as int].0@);
            }
            if self.entries[i].0 == dt {
                if count == 0 {
                    first = i;
                }
                count = count + 1;
            }
        }
        proof {
            assert(entries.subrange(0, entries.len() as int) =~= entries);
        }
        if count == 0 {
            return None;
        }
        if count == 1 {
            proof {
                assert(entries[first as int].2 == self.entries@[first as int].2@);
            }
            return Some(self.entries[first].2.clone());
        }
        match table_schema {
            Some(ts) => {
                let ts_lower = crate::text::to_lower(ts.as_str());
                let ghost candidates = entries.filter(by_name);
                let ghost in_schema = |e: (Seq<char>, Option<Seq<char>>, Seq<char>)| e.1 == Some(lowercase(ts@));
                proof {
                    assert(opt_view(*table_schema) == Some(ts@));
                }
                let mut matches: usize = 0;
                let mut only: usize = 0;
                for i in 0..self.entries.len()
                    invariant
                        entries == self.model(),
                        by_name == (|e: (Seq<char>, Option<Seq<char>>, Seq<char>)| e.0 == dt@),
                        in_schema == (|e: (Seq<char>, Option<Seq<char>>, Seq<char>)| e.1 == Some(lowercase(ts@))),
                        ts_lower@ == lowercase(ts@),
                        matches == entries.subrange(0, i as int).filter(by_name).filter(in_schema).len(),
                        matches > 0 ==> only < i && entries[only as int] == entries.subrange(0, i as int).filter(by_name).filter(in_schema)[0],
                {
                    let ghost pre = entries.subrange(0, i as int);
                    proof {
                        assert(entries.subrange(0, i + 1) =~= pre.push(entries[i as int]));
                        pre.lemma_filter_push(entries[i as int], by_name);
                        if by_name(entries[i as int]) {
                            pre.filter(by_name).lemma_filter_push(entries[i as int], in_schema);
                        }
                    }
                    let entry = &self.entries[i];
                    proof {
                        assert(entries[i as int] == (entry.0@, opt_view(entry.1), entry.2@));
                    }
                    let schema_matches = match &entry.1 {
                        Some(s) => *s == ts_lower,
                        None => false,
                    };
                    if entry.0 == dt && schema_matches {
                        if matches == 0 {
                            only = i;
                        }
                        matches = matches + 1;
                    }
                }
                proof {
                    assert(entries.subrange(0, entries.len() as int) =~= entries);
                }
                if matches == 1 {
                    proof {
                        assert(entries[only as int].2 == self.entries@[only as int].2@);
                    }
                    Some(self.entries[only].2.clone())
                } else {
                    None
                }
            },
            None => None,
        }
    }
}

} // verus!

verus! {

/// The enum a column's type refers to, resolved in the index.
pub open spec fn column_enum(entries: Seq<(Seq<char>, Option<Seq<char>>, Seq<char>)>, t: Table, c: Column) -> Option<Seq<char>> {
    resolve_enum(entries, opt_view(t.schema_name), c.data_type@)
}

/// The edge of a column whose type is the enum `id`.
pub open spec fn enum_edge_model(t: Table, c: Column, id: Seq<char>) -> EdgeModel {
    EdgeModel {
        from: t.stable_id@,
        to: id,
        name: Some(c.name@ + seq![' ', '('] + c.data_type@ + seq![')']),
        from_columns: seq![c.name@],
        to_columns: Seq::empty(),
        kind: EdgeKind::EnumReference,
        is_self_loop: false,
        nullable: c.nullable,
        is_collapsed_join: false,
        collapsed_join_table: None,
    }
}

/// The enum-reference edges of a table, in column order.
pub open spec fn enum_edges(entries: Seq<(Seq<char>, Option<Seq<char>>, Seq<char>)>, t: Table) -> Seq<EdgeModel> {
    t.columns@.filter(|c: Column| column_enum(entries, t, c) is Some).map_values(
        |c: Column| enum_edge_model(t, c, column_enum(entries, t, c)->0),
    )
}

/// The edges from the columns of `t` whose type is an enum.
fn enum_edges_of(t: &Table, index: &EnumIndex) -> (edges: Vec<LayoutEdge>)
    ensures
        edges_model(edges@) == enum_edges(index.model(), *t),
{
    let ghost entries = index.model();
    let ghost has_enum = |c: Column| column_enum(entries, *t, c) is Some;
    let mut edges: Vec<LayoutEdge> = Vec::new();
    proof {
        assert(t.columns@.subrange(0, 0).filter(has_enum) =~= Seq::<Column>::empty());
        assert(edges_model(edges@) =~= Seq::<EdgeModel>::empty());
    }
    for i in 0..t.columns.len()
        invariant
            entries == index.model(),
            has_enum == (|c: Column| column_enum(entries, *t, c) is Some),
            edges_model(edges@) == t.columns@.subrange(0, i as int).filter(has_enum).map_values(
                |c: Column| enum_edge_model(*t, c, column_enum(entries, *t, c)->0),
            ),
    {
        let column = &t.columns[i];
        let resolved = index.resolve(&t.schema_name, column.data_type.as_str());
        let ghost prev = edges@;
        proof {
            assert(t.columns@.subrange(0, i + 1) =~= t.columns@.subrange(0, i as int).push(t.columns@[i as int]));
            t.columns@.subrange(0, i as int).lemma_filter_push(t.columns@[i as int], has_enum);
        }
        match resolved {
            Some(enum_id) => {
                let name = crate::text::concat_str(
                    crate::text::concat_str(crate::text::concat_str(column.name.as_str(), " (").as_str(), column.data_type.as_str()).as_str(),
                    ")",
                );
                proof {
                    reveal_strlit(" (");
                    reveal_strlit(")");
                }
                let mut from_columns: Vec<String> = Vec::new();
                from_columns.push(column.name.clone());
                let edge = LayoutEdge {
                    from: t.stable_id.clone(),
                    to: enum_id,
                    name: Some(name),
                    from_columns,
                    to_columns: Vec::new(),
                    kind: EdgeKind::EnumReference,
                    is_self_loop: false,
                    nullable: column.nullable,
                    is_collapsed_join: false,
                    collapsed_join_table: None,
                };
                edges.push(edge);
                proof {
                    assert(edges@ == prev.push(edge));
                    assert(edges_model(edges@) =~= edges_model(prev).push(edge.model()));
                    assert(strings_model(edge.from_columns@) =~= seq![column.name@]);
                    assert(strings_model(edge.to_columns@) =~= Seq::<Seq<char>>::empty());
                    assert(column_enum(entries, *t, *column) == Some(edge.to@));
                    assert(edge.model().name == Some(column.name@ + seq![' ', '('] + column.data_type@ + seq![')']));
                    assert(edge.model() == enum_edge_model(*t, *column, column_enum(entries, *t, *column)->0));
                }
            },
            None => {},
        }
    }
    proof {
        assert(t.columns@.subrange(0, t.columns@.len() as int) =~= t.columns@);
    }
    edges
}

/// `needle` occurs in `def` as a whole identifier.
pub open spec fn names_identifier(def: Seq<char>, needle: Seq<char>) -> bool {
    alone_occurrence_from(def, needle, 0)
}

/// A view definition mentions table `t` (by stable id or name).
pub open spec fn table_dependency(def: Seq<char>, t: Table) -> bool {
    names_identifier(def, lowercase(t.stable_id@)) || names_identifier(def, lowercase(t.name@))
}

/// A view definition mentions another view `w` (by id, name or qualified name).
pub open spec fn view_dependency(def: Seq<char>, view_id: Seq<char>, w: SchemaView) -> bool {
    &&& w.id@ != view_id
    &&& (names_identifier(def, lowercase(w.id@)) || names_identifier(def, lowercase(w.name@)) || names_identifier(
        def,
        lowercase(qualified_name_of(opt_view(w.schema_name), w.name@)),
    ))
}

/// The ids of the tables and other views that a (lowercased) view
/// definition mentions.
pub open spec fn dependency_targets(def: Seq<char>, view_id: Seq<char>, tables: Seq<Table>, views: Seq<SchemaView>) -> Set<
    Seq<char>,
> {
    Set::new(
        |id: Seq<char>|
            (exists|i: int| 0 <= i < tables.len() && #[trigger] tables[i].stable_id@ == id && table_dependency(def, tables[i]))
                || (exists|j: int|
                0 <= j < views.len() && #[trigger] views[j].id@ == id && view_dependency(def, view_id, views[j])),
    )
}

/// The strings of a finite set in increasing string order.
pub open spec fn in_text_order(s: Set<Seq<char>>) -> Seq<Seq<char>> {
    choose|t: Seq<Seq<char>>| sorted_texts(t) && t.to_set() == s
}

/// The dependency edge from `target` to the view `view_id`.
pub open spec fn dep_edge_model(target: Seq<char>, view_id: Seq<char>) -> EdgeModel {
    EdgeModel {
        from: target,
        to: view_id,
        name: Some(seq!['v', 'i', 'e', 'w', ' ', 'd', 'e', 'p']),
        from_columns: Seq::empty(),
        to_columns: Seq::empty(),
        kind: EdgeKind::ViewDependency,
        is_self_loop: false,
        nullable: false,
        is_collapsed_join: false,
        collapsed_join_table: None,
    }
}

/// The dependency edges of a view, by increasing target id.
pub open spec fn view_dep_edges(v: SchemaView, tables: Seq<Table>, views: Seq<SchemaView>) -> Seq<EdgeModel> {
    match v.definition {
        None => Seq::empty(),
        Some(d) => in_text_order(dependency_targets(lowercase(d@), v.id@, tables, views)).map_values(
            |id: Seq<char>| dep_edge_model(id, v.id@),
        ),
    }
}

/// Whether `a` comes strictly before the characters `b` in string order.
fn text_before(a: &String, b: &Vec<char>) -> (r: bool)
    ensures
        r == text_less(a@, b@),
{
    let ac = chars_of(a.as_str());
    text_less_exec(&ac, b)
}

/// Inserts `x` into a list kept in strictly increasing string order, unless
/// it is already there.
fn insert_text_sorted(list: &mut Vec<String>, x: String)
    requires
        sorted_texts(strings_model(old(list)@)),
    ensures
        sorted_texts(strings_model(final(list)@)),
        strings_model(final(list)@).to_set() == strings_model(old(list)@).to_set().insert(x@),
{
    let ghost before = strings_model(list@);
    let xc = chars_of(x.as_str());
    let mut p: usize = 0;
    while p < list.len() && text_before(&list[p], &xc)
        invariant
            p <= list@.len(),
            before == strings_model(list@),
            sorted_texts(before),
            xc@ == x@,
            forall|a: int| 0 <= a < p ==> text_less(#[trigger] before[a], x@),
        decreases list@.len() - p,
    {
        p = p + 1;
    }
    if p < list.len() && list[p] == x {
        proof {
            assert(before[p as int] == x@);
            assert(before.to_set().insert(x@) =~= before.to_set());
        }
        return;
    }
    proof {
        if p < before.len() {
            assert(before[p as int] == list@[p as int]@);
            assert(!text_less(before[p as int], x@));
            lemma_text_less_total(before[p as int], x@);
            assert(before[p as int] != x@);
            assert(text_less(x@, before[p as int]));
        }
    }
    list.insert(p, x);
    proof {
        let after = strings_model(list@);
        assert(after =~= before.insert(p as int, x@));
        assert forall|a: int, b: int| 0 <= a < b < after.len() implies text_less(#[trigger] after[a], #[trigger] after[b]) by {
            if a < p && b == p {
            } else if a < p && b > p {
                assert(after[b] == before[b - 1]);
                if p < before.len() {
                    lemma_text_less_transitive(before[a], x@, before[p as int]);
                    if b - 1 > p {
                        lemma_text_less_transitive(before[a], before[p as int], before[b - 1]);
                    }
                }
            } else if a == p && b > p {
                assert(after[b] == before[b - 1]);
                if b - 1 > p {
                    lemma_text_less_transitive(x@, before[p as int], before[b - 1]);
                }
            } else if b < p {
            } else {
                assert(after[a] == before[a - 1]);
                assert(after[b] == before[b - 1]);
            }
        }
        assert forall|s: Seq<char>| after.to_set().contains(s) <==> before.to_set().insert(x@).contains(s) by {
            if after.to_set().contains(s) {
                let i = choose|i: int| 0 <= i < after.len() && after[i] == s;
                if i < p {
                    assert(before[i] == s);
                } else if i > p {
                    assert(before[i - 1] == s);
                }
            }
            if before.to_set().contains(s) {
                let i = choose|i: int| 0 <= i < before.len() && before[i] == s;
                if i < p {
                    assert(after[i] == s);
                } else {
                    assert(after[i + 1] == s);
                }
            }
            if s == x@ {
                assert(after[p as int] == s);
            }
        }
        assert(after.to_set() =~= before.to_set().insert(x@));
    }
}

} // verus!

verus! {

/// The ids of the first `k` tables that a definition mentions.
pub open spec fn table_targets_upto(def: Seq<char>, tables: Seq<Table>, k: int) -> Set<Seq<char>> {
    Set::new(
        |id: Seq<char>|
            exists|i: int| 0 <= i < k && #[trigger] tables[i].stable_id@ == id && table_dependency(def, tables[i]),
    )
}

/// The ids of the first `k` other views that a definition mentions.
pub open spec fn view_targets_upto(def: Seq<char>, view_id: Seq<char>, views: Seq<SchemaView>, k: int) -> Set<Seq<char>> {
    Set::new(
        |id: Seq<char>|
            exists|j: int| 0 <= j < k && #[trigger] views[j].id@ == id && view_dependency(def, view_id, views[j]),
    )
}

/// Whether the lowercased definition mentions the table.
fn mentions_table(def: &str, t: &Table) -> (r: bool)
    ensures
        r == table_dependency(def@, *t),
{
    let id = crate::text::to_lower(t.stable_id.as_str());
    let name = crate::text::to_lower(t.name.as_str());
    contains_identifier(def, id.as_str()) || contains_identifier(def, name.as_str())
}

/// Whether the lowercased definition of view `view_id` mentions view `w`.
fn mentions_view(def: &str, view_id: &String, w: &SchemaView) -> (r: bool)
    ensures
        r == view_dependency(def@, view_id@, *w),
{
    if w.id == *view_id {
        return false;
    }
    let id = crate::text::to_lower(w.id.as_str());
    let name = crate::text::to_lower(w.name.as_str());
    let label = crate::text::to_lower(w.qualified_name().as_str());
    contains_identifier(def, id.as_str()) || contains_identifier(def, name.as_str()) || contains_identifier(
        def,
        label.as_str(),
    )
}

/// The dependency edges of view `v` towards the kept tables and views.
fn view_dep_edges_of(
    v: &SchemaView,
    all_tables: &Vec<Table>,
    kept_tables: &Vec<usize>,
    all_views: &Vec<SchemaView>,
    kept_views: &Vec<usize>,
) -> (edges: Vec<LayoutEdge>)
    requires
        forall|k: int| 0 <= k < kept_tables@.len() ==> #[trigger] kept_tables@[k] < all_tables@.len(),
        forall|k: int| 0 <= k < kept_views@.len() ==> #[trigger] kept_views@[k] < all_views@.len(),
    ensures
        edges_model(edges@) == view_dep_edges(
            *v,
            kept_tables@.map_values(|i: usize| all_tables@[i as int]),
            kept_views@.map_values(|i: usize| all_views@[i as int]),
        ),
{
    let ghost tables = kept_tables@.map_values(|i: usize| all_tables@[i as int]);
    let ghost views = kept_views@.map_values(|i: usize| all_views@[i as int]);
    let definition = match &v.definition {
        Some(d) => d,
        None => {
            proof {
                assert(edges_model(Seq::<LayoutEdge>::empty()) =~= Seq::<EdgeModel>::empty());
            }
            return Vec::new();
        },
    };
    let def = crate::text::to_lower(definition.as_str());
    let mut targets: Vec<String> = Vec::new();
    proof {
        assert(strings_model(targets@).to_set() =~= table_targets_upto(def@, tables, 0));
    }
    for k in 0..kept_tables.len()
        invariant
            tables == kept_tables@.map_values(|i: usize| all_tables@[i as int]),
            forall|q: int| 0 <= q < kept_tables@.len() ==> #[trigger] kept_tables@[q] < all_tables@.len(),
            sorted_texts(strings_model(targets@)),
            strings_model(targets@).to_set() == table_targets_upto(def@, tables, k as int),
    {
        let t = &all_tables[kept_tables[k]];
        proof {
            assert(tables[k as int] == *t);
        }
        let ghost before = table_targets_upto(def@, tables, k as int);
        if mentions_table(def.as_str(), t) {
            insert_text_sorted(&mut targets, t.stable_id.clone());
            proof {
                assert(table_targets_upto(def@, tables, k + 1) =~= before.insert(t.stable_id@));
            }
        } else {
            proof {
                assert(table_targets_upto(def@, tables, k + 1) =~= before);
            }
        }
    }
    let ghost table_part = table_targets_upto(def@, tables, tables.len() as int);
    proof {
        assert(strings_model(targets@).to_set() =~= table_part.union(view_targets_upto(def@, v.id@, views, 0)));
    }
    for k in 0..kept_views.len()
        invariant
            views == kept_views@.map_values(|i: usize| all_views@[i as int]),
            forall|q: int| 0 <= q < kept_views@.len() ==> #[trigger] kept_views@[q] < all_views@.len(),
            sorted_texts(strings_model(targets@)),
            strings_model(targets@).to_set() == table_part.union(view_targets_upto(def@, v.id@, views, k as int)),
    {
        let w = &all_views[kept_views[k]];
        proof {
            assert(views[k as int] == *w);
        }
        let ghost before = view_targets_upto(def@, v.id@, views, k as int);
        if mentions_view(def.as_str(), &v.id, w) {
            insert_text_sorted(&mut targets, w.id.clone());
            proof {
                assert(view_targets_upto(def@, v.id@, views, k + 1) =~= before.insert(w.id@));
                assert(table_part.union(before.insert(w.id@)) =~= table_part.union(before).insert(w.id@));
            }
        } else {
            proof {
                assert(view_targets_upto(def@, v.id@, views, k + 1) =~= before);
            }
        }
    }
    let ghost target_set = dependency_targets(def@, v.id@, tables, views);
    proof {
        assert(strings_model(targets@).to_set() =~= target_set);
        let chosen = in_text_order(target_set);
        assert(sorted_texts(chosen) && chosen.to_set() == target_set);
        crate::text::lemma_sorted_texts_unique(chosen, strings_model(targets@));
    }
    let mut edges: Vec<LayoutEdge> = Vec::new();
    for q in 0..targets.len()
        invariant
            edges_model(edges@) == strings_model(targets@).subrange(0, q as int).map_values(
                |id: Seq<char>| dep_edge_model(id, v.id@),
            ),
    {
        let name = String::from_str("view dep");
        proof {
            reveal_strlit("view dep");
            assert(name@ =~= seq!['v', 'i', 'e', 'w', ' ', 'd', 'e', 'p']);
        }
        let edge = LayoutEdge {
            from: targets[q].clone(),
            to: v.id.clone(),
            name: Some(name),
            from_columns: Vec::new(),
            to_columns: Vec::new(),
            kind: EdgeKind::ViewDependency,
            is_self_loop: false,
            nullable: false,
            is_collapsed_join: false,
            collapsed_join_table: None,
        };
        let ghost prev = edges@;
        edges.push(edge);
        proof {
            assert(edges@ == prev.push(edge));
            assert(edges_model(edges@) =~= edges_model(prev).push(edge.model()));
            assert(strings_model(edge.from_columns@) =~= Seq::<Seq<char>>::empty());
            assert(strings_model(edge.to_columns@) =~= Seq::<Seq<char>>::empty());
            assert(edge.model() == dep_edge_model(strings_model(targets@)[q as int], v.id@));
            assert(strings_model(targets@).subrange(0, q + 1) =~= strings_model(targets@).subrange(0, q as int).push(
                strings_model(targets@)[q as int],
            ));
        }
    }
    proof {
        assert(strings_model(targets@).subrange(0, targets@.len() as int) =~= strings_model(targets@));
    }
    edges
}

} // verus!

verus! {

/// Edges of the first `k` tables: each table's foreign-key edges, then its
/// enum-reference edges.
pub open spec fn table_edges_upto(
    tables: Seq<Table>,
    entries: Seq<(Seq<char>, Option<Seq<char>>, Seq<char>)>,
    k: int,
) -> Seq<EdgeModel>
    decreases k,
{
    if k <= 0 || k > tables.len() {
        Seq::empty()
    } else {
        table_edges_upto(tables, entries, k - 1) + fk_edges(tables, tables[k - 1]) + enum_edges(entries, tables[k - 1])
    }
}

/// Dependency edges of the first `k` views.
pub open spec fn view_edges_upto(tables: Seq<Table>, views: Seq<SchemaView>, k: int) -> Seq<EdgeModel>
    decreases k,
{
    if k <= 0 || k > views.len() {
        Seq::empty()
    } else {
        view_edges_upto(tables, views, k - 1) + view_dep_edges(views[k - 1], tables, views)
    }
}

/// The nodes of the kept tables, views and enums, in this order.
pub open spec fn schema_nodes(tables: Seq<Table>, views: Seq<SchemaView>, enums: Seq<Enum>) -> Seq<NodeModel> {
    tables.map_values(|t: Table| table_node_model(t)) + views.map_values(|v: SchemaView| view_node_model(v))
        + enums.map_values(|e: Enum| enum_node_model(e))
}

/// The edges of the kept tables and views: per table its foreign keys and
/// enum references, then per view its dependencies.
pub open spec fn schema_edges(tables: Seq<Table>, views: Seq<SchemaView>, enums: Seq<Enum>) -> Seq<EdgeModel> {
    table_edges_upto(tables, enums.map_values(|e: Enum| enum_entry(e)), tables.len() as int) + view_edges_upto(
        tables,
        views,
        views.len() as int,
    )
}

/// Appends `more` to `v`.
fn append_edges(v: &mut Vec<LayoutEdge>, more: Vec<LayoutEdge>)
    ensures
        edges_model(final(v)@) == edges_model(old(v)@) + edges_model(more@),
{
    let mut more = more;
    let ghost start = v@;
    let ghost added = more@;
    v.append(&mut more);
    proof {
        assert(v@ == start + added);
        assert(edges_model(v@) =~= edges_model(start) + edges_model(added));
    }
}

/// The nodes built from schema objects start with no relationships.
proof fn lemma_schema_nodes_fresh(tables: Seq<Table>, views: Seq<SchemaView>, enums: Seq<Enum>)
    ensures
        forall|i: int|
            0 <= i < schema_nodes(tables, views, enums).len() ==> #[trigger] schema_nodes(tables, views, enums)[i].inbound_count
                == 0 && schema_nodes(tables, views, enums)[i].outbound_count == 0,
{
    let a = tables.map_values(|t: Table| table_node_model(t));
    let b = views.map_values(|v: SchemaView| view_node_model(v));
    let c = enums.map_values(|e: Enum| enum_node_model(e));
    let all = schema_nodes(tables, views, enums);
    assert(all == a + b + c);
    assert forall|i: int| 0 <= i < all.len() implies #[trigger] all[i].inbound_count == 0 && all[i].outbound_count == 0 by {
        if i < a.len() {
            assert(all[i] == a[i]);
        } else if i < a.len() + b.len() {
            assert(all[i] == b[i - a.len()]);
        } else {
            assert(all[i] == c[i - a.len() - b.len()]);
        }
    }
}

/// Build nodes and edges from the kept schema objects.
fn build_nodes_and_edges(
    all_tables: &Vec<Table>,
    kept_tables: &Vec<usize>,
    all_views: &Vec<SchemaView>,
    kept_views: &Vec<usize>,
    all_enums: &Vec<Enum>,
    kept_enums: &Vec<usize>,
) -> (result: (Vec<LayoutNode>, Vec<LayoutEdge>))
    requires
        forall|k: int| 0 <= k < kept_tables@.len() ==> #[trigger] kept_tables@[k] < all_tables@.len(),
        forall|k: int| 0 <= k < kept_views@.len() ==> #[trigger] kept_views@[k] < all_views@.len(),
        forall|k: int| 0 <= k < kept_enums@.len() ==> #[trigger] kept_enums@[k] < all_enums@.len(),
    ensures
        nodes_model(result.0@) == schema_nodes(
            kept_tables@.map_values(|i: usize| all_tables@[i as int]),
            kept_views@.map_values(|i: usize| all_views@[i as int]),
            kept_enums@.map_values(|i: usize| all_enums@[i as int]),
        ),
        edges_model(result.1@) == schema_edges(
            kept_tables@.map_values(|i: usize| all_tables@[i as int]),
            kept_views@.map_values(|i: usize| all_views@[i as int]),
            kept_enums@.map_values(|i: usize| all_enums@[i as int]),
        ),
{
    let ghost tables = kept_tables@.map_values(|i: usize| all_tables@[i as int]);
    let ghost views = kept_views@.map_values(|i: usize| all_views@[i as int]);
    let ghost enums = kept_enums@.map_values(|i: usize| all_enums@[i as int]);
    let enum_index = EnumIndex::new(all_enums, kept_enums);
    let mut nodes: Vec<LayoutNode> = Vec::new();
    let mut edges: Vec<LayoutEdge> = Vec::new();
    proof {
        assert(nodes_model(nodes@) =~= tables.subrange(0, 0).map_values(|t: Table| table_node_model(t)));
        assert(edges_model(edges@) =~= table_edges_upto(tables, enum_index.model(), 0));
    }
    for k in 0..kept_tables.len()
        invariant
            tables == kept_tables@.map_values(|i: usize| all_tables@[i as int]),
            forall|q: int| 0 <= q < kept_tables@.len() ==> #[trigger] kept_tables@[q] < all_tables@.len(),
            nodes_model(nodes@) == tables.subrange(0, k as int).map_values(|t: Table| table_node_model(t)),
            edges_model(edges@) == table_edges_upto(tables, enum_index.model(), k as int),
    {
        let t = &all_tables[kept_tables[k]];
        proof {
            assert(tables[k as int] == *t);
        }
        let node = table_node(t);
        let ghost prev_nodes = nodes@;
        nodes.push(node);
        proof {
            assert(nodes_model(nodes@) =~= nodes_model(prev_nodes).push(node.model()));
            assert(tables.subrange(0, k + 1) =~= tables.subrange(0, k as int).push(*t));
            assert(tables.subrange(0, k + 1).map_values(|t: Table| table_node_model(t)) =~= tables.subrange(0, k as int).map_values(
                |t: Table| table_node_model(t),
            ).push(table_node_model(*t)));
        }
        let fk = fk_edges_of(t, all_tables, kept_tables);
        append_edges(&mut edges, fk);
        let en = enum_edges_of(t, &enum_index);
        append_edges(&mut edges, en);
    }
    proof {
        assert(tables.subrange(0, tables.len() as int) =~= tables);
        assert(enum_index.model() == enums.map_values(|e: Enum| enum_entry(e)));
        assert(nodes_model(nodes@) =~= tables.map_values(|t: Table| table_node_model(t)) + views.subrange(0, 0).map_values(
            |v: SchemaView| view_node_model(v),
        ));
        assert(edges_model(edges@) =~= table_edges_upto(tables, enum_index.model(), tables.len() as int) + view_edges_upto(
            tables,
            views,
            0,
        ));
    }
    let ghost table_nodes = tables.map_values(|t: Table| table_node_model(t));
    let ghost table_edges = table_edges_upto(tables, enum_index.model(), tables.len() as int);
    for k in 0..kept_views.len()
        invariant
            tables == kept_tables@.map_values(|i: usize| all_tables@[i as int]),
            views == kept_views@.map_values(|i: usize| all_views@[i as int]),
            forall|q: int| 0 <= q < kept_tables@.len() ==> #[trigger] kept_tables@[q] < all_tables@.len(),
            forall|q: int| 0 <= q < kept_views@.len() ==> #[trigger] kept_views@[q] < all_views@.len(),
            nodes_model(nodes@) == table_nodes + views.subrange(0, k as int).map_values(|v: SchemaView| view_node_model(v)),
            edges_model(edges@) == table_edges + view_edges_upto(tables, views, k as int),
    {
        let v = &all_views[kept_views[k]];
        proof {
            assert(views[k as int] == *v);
        }
        let node = view_node(v);
        let ghost prev_nodes = nodes@;
        nodes.push(node);
        proof {
            assert(nodes_model(nodes@) =~= nodes_model(prev_nodes).push(node.model()));
            assert(views.subrange(0, k + 1).map_values(|v: SchemaView| view_node_model(v)) =~= views.subrange(0, k as int).map_values(
                |v: SchemaView| view_node_model(v),
            ).push(view_node_model(*v)));
        }
        let deps = view_dep_edges_of(v, all_tables, kept_tables, all_views, kept_views);
        let ghost prev_edges = edges_model(edges@);
        append_edges(&mut edges, deps);
        proof {
            assert(prev_edges + view_dep_edges(*v, tables, views) =~= table_edges + view_edges_upto(tables, views, k + 1));
        }
    }
    proof {
        assert(views.subrange(0, views.len() as int) =~= views);
        assert(nodes_model(nodes@) =~= table_nodes + views.map_values(|v: SchemaView| view_node_model(v)) + enums.subrange(
            0,
            0,
        ).map_values(|e: Enum| enum_node_model(e)));
    }
    let ghost tv_nodes = table_nodes + views.map_values(|v: SchemaView| view_node_model(v));
    for k in 0..kept_enums.len()
        invariant
            enums == kept_enums@.map_values(|i: usize| all_enums@[i as int]),
            forall|q: int| 0 <= q < kept_enums@.len() ==> #[trigger] kept_enums@[q] < all_enums@.len(),
            nodes_model(nodes@) == tv_nodes + enums.subrange(0, k as int).map_values(|e: Enum| enum_node_model(e)),
    {
        let e = &all_enums[kept_enums[k]];
        proof {
            assert(enums[k as int] == *e);
        }
        let node = enum_node(e);
        let ghost prev_nodes = nodes@;
        nodes.push(node);
        proof {
            assert(nodes_model(nodes@) =~= nodes_model(prev_nodes).push(node.model()));
            assert(enums.subrange(0, k + 1).map_values(|e: Enum| enum_node_model(e)) =~= enums.subrange(0, k as int).map_values(
                |e: Enum| enum_node_model(e),
            ).push(enum_node_model(*e)));
        }
    }
    proof {
        assert(enums.subrange(0, enums.len() as int) =~= enums);
    }
    (nodes, edges)
}

} // verus!

verus! {

/// The last node index holding stable id `id`.
pub open spec fn last_with_id(nodes: Seq<NodeModel>, id: Seq<char>) -> Option<usize>
    decreases nodes.len(),
{
    if nodes.len() == 0 {
        None
    } else if nodes.last().id == id {
        Some((nodes.len() - 1) as usize)
    } else {
        last_with_id(nodes.drop_last(), id)
    }
}

/// Indexes nodes by stable id; an id held by several nodes maps to the last.
pub(crate) fn index_nodes(nodes: &Vec<LayoutNode>) -> (index: NodeIndex)
    ensures
        forall|key: Seq<char>| #[trigger] index.lookup(key) == last_with_id(nodes_model(nodes@), key),
        forall|j: int| 0 <= j < index.entries@.len() ==> #[trigger] index.entries@[j].1 < nodes@.len(),
{
    let mut index = NodeIndex::new();
    for i in 0..nodes.len()
        invariant
            forall|key: Seq<char>| #[trigger] index.lookup(key) == last_with_id(nodes_model(nodes@.subrange(0, i as int)), key),
            forall|j: int| 0 <= j < index.entries@.len() ==> #[trigger] index.entries@[j].1 < i,
    {
        let ghost before = index;
        index.insert(nodes[i].id.clone(), i);
        proof {
            assert forall|j: int| 0 <= j < index.entries@.len() implies #[trigger] index.entries@[j].1 < i + 1 by {
                if index.entries@[j].1 != i {
                    let m = choose|m: int| 0 <= m < before.entries@.len() && before.entries@[m] == index.entries@[j];
                    assert(before.entries@[m].1 < i);
                }
            }
            assert(nodes_model(nodes@.subrange(0, i + 1)).drop_last() =~= nodes_model(nodes@.subrange(0, i as int)));
            assert(nodes_model(nodes@.subrange(0, i + 1)).last() == nodes@[i as int].model());
            assert forall|key: Seq<char>| #[trigger] index.lookup(key) == last_with_id(nodes_model(nodes@.subrange(0, i + 1)), key) by {
                assert(index.lookup(key) == if key == nodes@[i as int].id@ { Some(i) } else { before.lookup(key) });
            }
        }
    }
    proof {
        assert(nodes@.subrange(0, nodes@.len() as int) =~= nodes@);
    }
    index
}

/// The stable id of each node, by node index.
pub(crate) fn ids_of(nodes: &Vec<LayoutNode>) -> (ids: Vec<String>)
    ensures
        ids@.len() == nodes@.len(),
        forall|q: int| 0 <= q < nodes@.len() ==> #[trigger] ids@[q]@ == nodes@[q].id@,
{
    let mut ids: Vec<String> = Vec::new();
    for i in 0..nodes.len()
        invariant
            ids@.len() == i,
            forall|q: int| 0 <= q < i ==> #[trigger] ids@[q]@ == nodes@[q].id@,
    {
        ids.push(nodes[i].id.clone());
    }
    ids
}

/// Number of edges (not self-loops) into node `i`.
pub open spec fn inbound_of(nodes: Seq<NodeModel>, edges: Seq<EdgeModel>, i: usize) -> nat {
    tally(edges, |e: EdgeModel| if !e.is_self_loop && last_with_id(nodes, e.to) == Some(i) { 1nat } else { 0nat })
}

/// Number of edges (not self-loops) out of node `i`.
pub open spec fn outbound_of(nodes: Seq<NodeModel>, edges: Seq<EdgeModel>, i: usize) -> nat {
    tally(edges, |e: EdgeModel| if !e.is_self_loop && last_with_id(nodes, e.from) == Some(i) { 1nat } else { 0nat })
}

/// Some self-loop edge starts at node `i`.
pub open spec fn self_loop_of(nodes: Seq<NodeModel>, edges: Seq<EdgeModel>, i: usize) -> bool {
    exists|k: int| 0 <= k < edges.len() && #[trigger] edges[k].is_self_loop && last_with_id(nodes, edges[k].from) == Some(i)
}

/// A node with its relationship counts raised by those of the edges.
pub open spec fn with_counts(n: NodeModel, nodes: Seq<NodeModel>, edges: Seq<EdgeModel>, i: usize) -> NodeModel {
    NodeModel {
        inbound_count: n.inbound_count + inbound_of(nodes, edges, i),
        outbound_count: n.outbound_count + outbound_of(nodes, edges, i),
        has_self_loop: n.has_self_loop || self_loop_of(nodes, edges, i),
        ..n
    }
}

/// Per-node increments of one counter, over the first `k` edges.
spec fn count_prefix(nodes: Seq<NodeModel>, edges: Seq<EdgeModel>, k: int, i: usize, inbound: bool) -> nat {
    if inbound {
        inbound_of(nodes, edges.subrange(0, k), i)
    } else {
        outbound_of(nodes, edges.subrange(0, k), i)
    }
}

/// Compute inbound/outbound relationship counts and self-loop flags.
fn compute_relationship_counts(nodes: &mut Vec<LayoutNode>, edges: &Vec<LayoutEdge>)
    requires
        forall|i: int|
            0 <= i < old(nodes)@.len() ==> #[trigger] old(nodes)@[i].inbound_count + edges@.len() <= usize::MAX
                && old(nodes)@[i].outbound_count + edges@.len() <= usize::MAX,
    ensures
        nodes_model(final(nodes)@).len() == nodes_model(old(nodes)@).len(),
        forall|i: int|
            0 <= i < final(nodes)@.len() ==> #[trigger] final(nodes)@[i].model() == with_counts(
                old(nodes)@[i].model(),
                nodes_model(old(nodes)@),
                edges_model(edges@),
                i as usize,
            ),
{
    let ghost nm = nodes_model(nodes@);
    let ghost em = edges_model(edges@);
    let index = index_nodes(nodes);
    let n = nodes.len();
    let mut inbound: Vec<usize> = Vec::new();
    let mut outbound: Vec<usize> = Vec::new();
    let mut self_loop: Vec<bool> = Vec::new();
    for i in 0..n
        invariant
            inbound@.len() == i,
            outbound@.len() == i,
            self_loop@.len() == i,
            forall|q: int| 0 <= q < i ==> #[trigger] inbound@[q] == 0,
            forall|q: int| 0 <= q < i ==> #[trigger] outbound@[q] == 0,
            forall|q: int| 0 <= q < i ==> !#[trigger] self_loop@[q],
    {
        inbound.push(0);
        outbound.push(0);
        self_loop.push(false);
    }
    proof {
        assert forall|q: int| 0 <= q < n implies #[trigger] inbound@[q] == count_prefix(nm, em, 0, q as usize, true)
            && outbound@[q] == count_prefix(nm, em, 0, q as usize, false) by {
            assert(em.subrange(0, 0).len() == 0);
            assert(inbound_of(nm, em.subrange(0, 0), q as usize) == 0);
            assert(outbound_of(nm, em.subrange(0, 0), q as usize) == 0);
        }
    }
    for k in 0..edges.len()
        invariant
            nm == nodes_model(nodes@),
            em == edges_model(edges@),
            n == nodes@.len(),
            inbound@.len() == n,
            outbound@.len() == n,
            self_loop@.len() == n,
            forall|key: Seq<char>| #[trigger] index.lookup(key) == last_with_id(nm, key),
            forall|q: int|
                0 <= q < n ==> #[trigger] inbound@[q] == count_prefix(nm, em, k as int, q as usize, true) && inbound@[q] <= k,
            forall|q: int|
                0 <= q < n ==> #[trigger] outbound@[q] == count_prefix(nm, em, k as int, q as usize, false) && outbound@[q] <= k,
            forall|q: int|
                0 <= q < n ==> #[trigger] self_loop@[q] == exists|j: int|
                    0 <= j < k && em[j].is_self_loop && last_with_id(nm, em[j].from) == Some(q as usize),
    {
        let edge = &edges[k];
        proof {
            assert(em[k as int] == edge.model());
            lemma_last_with_id_bound(nm, edge.from@);
            lemma_last_with_id_bound(nm, edge.to@);
            assert forall|q: usize| true implies count_prefix(nm, em, k + 1, q, true) == count_prefix(nm, em, k as int, q, true)
                + (if !em[k as int].is_self_loop && last_with_id(nm, em[k as int].to) == Some(q) { 1nat } else { 0nat })
                && count_prefix(nm, em, k + 1, q, false) == count_prefix(nm, em, k as int, q, false) + (if !em[k as int].is_self_loop
                && last_with_id(nm, em[k as int].from) == Some(q) { 1nat } else { 0nat }) by {
                assert(em.subrange(0, k + 1).drop_last() =~= em.subrange(0, k as int));
            }
        }
        if edge.is_self_loop {
            match index.get(edge.from.as_str()) {
                Some(i) => {
                    self_loop.set(i, true);
                },
                None => {},
            }
        } else {
            match index.get(edge.from.as_str()) {
                Some(i) => {
                    let c = outbound[i];
                    outbound.set(i, c + 1);
                },
                None => {},
            }
            match index.get(edge.to.as_str()) {
                Some(i) => {
                    let c = inbound[i];
                    inbound.set(i, c + 1);
                },
                None => {},
            }
        }
    }
    proof {
        assert(em.subrange(0, em.len() as int) =~= em);
    }
    for i in 0..n
        invariant
            nm == nodes_model(old(nodes)@),
            em == edges_model(edges@),
            n == nodes@.len(),
            n == old(nodes)@.len(),
            inbound@.len() == n,
            outbound@.len() == n,
            self_loop@.len() == n,
            forall|q: int| 0 <= q < n ==> #[trigger] inbound@[q] == inbound_of(nm, em, q as usize) && inbound@[q] <= edges@.len(),
            forall|q: int|
                0 <= q < n ==> #[trigger] outbound@[q] == outbound_of(nm, em, q as usize) && outbound@[q] <= edges@.len(),
            forall|q: int| 0 <= q < n ==> #[trigger] self_loop@[q] == self_loop_of(nm, em, q as usize),
            forall|q: int|
                0 <= q < n ==> #[trigger] old(nodes)@[q].inbound_count + edges@.len() <= usize::MAX
                    && old(nodes)@[q].outbound_count + edges@.len() <= usize::MAX,
            forall|q: int| i <= q < n ==> #[trigger] nodes@[q] == old(nodes)@[q],
            forall|q: int|
                0 <= q < i ==> #[trigger] nodes@[q].model() == with_counts(old(nodes)@[q].model(), nm, em, q as usize),
    {
        let mut node = nodes[i].clone();
        node.inbound_count = node.inbound_count + inbound[i];
        node.outbound_count = node.outbound_count + outbound[i];
        node.has_self_loop = node.has_self_loop || self_loop[i];
        proof {
            assert(node.model() =~= with_counts(old(nodes)@[i as int].model(), nm, em, i as usize));
        }
        nodes.set(i, node);
    }
}

/// Two node lists with the same ids, position by position, index alike.
proof fn lemma_last_with_id_same_ids(a: Seq<NodeModel>, b: Seq<NodeModel>, id: Seq<char>)
    requires
        a.len() == b.len(),
        forall|i: int| 0 <= i < a.len() ==> #[trigger] a[i].id == b[i].id,
    ensures
        last_with_id(a, id) == last_with_id(b, id),
    decreases a.len(),
{
    if a.len() > 0 {
        assert(a.last().id == b.last().id);
        if a.last().id != id {
            lemma_last_with_id_same_ids(a.drop_last(), b.drop_last(), id);
        }
    }
}

proof fn lemma_last_with_id_bound(nodes: Seq<NodeModel>, id: Seq<char>)
    requires
        nodes.len() <= usize::MAX,
    ensures
        last_with_id(nodes, id) matches Some(i) ==> i < nodes.len() && nodes[i as int].id == id,
    decreases nodes.len(),
{
    if nodes.len() > 0 && nodes.last().id != id {
        lemma_last_with_id_bound(nodes.drop_last(), id);
    }
}

} // verus!

verus! {

/// A column name that a join table may carry besides its foreign keys.
pub open spec fn metadata_name(name: Seq<char>) -> bool {
    ||| name == seq!['i', 'd']
    ||| name == seq!['c', 'r', 'e', 'a', 't', 'e', 'd', '_', 'a', 't']
    ||| name == seq!['u', 'p', 'd', 'a', 't', 'e', 'd', '_', 'a', 't']
    ||| name == seq!['c', 'r', 'e', 'a', 't', 'e', 'd', '_', 'o', 'n']
    ||| name == seq!['u', 'p', 'd', 'a', 't', 'e', 'd', '_', 'o', 'n']
    ||| name == seq!['d', 'e', 'l', 'e', 't', 'e', 'd', '_', 'a', 't']
    ||| name == seq!['s', 'o', 'r', 't', '_', 'o', 'r', 'd', 'e', 'r']
    ||| name == seq!['p', 'o', 's', 'i', 't', 'i', 'o', 'n']
}

/// A primary-key column or a bookkeeping column (`id`, timestamps, ordering).
pub open spec fn join_metadata_column(c: ColumnModel) -> bool {
    c.is_primary_key || metadata_name(c.name)
}

fn is_metadata_name(name: &String) -> (r: bool)
    ensures
        r == metadata_name(name@),
{
    let names = [
        "id",
        "created_at",
        "updated_at",
        "created_on",
        "updated_on",
        "deleted_at",
        "sort_order",
        "position",
    ];
    proof {
        reveal_strlit("id");
        reveal_strlit("created_at");
        reveal_strlit("updated_at");
        reveal_strlit("created_on");
        reveal_strlit("updated_on");
        reveal_strlit("deleted_at");
        reveal_strlit("sort_order");
        reveal_strlit("position");
    }
    let n = chars_of(name.as_str());
    let c0 = chars_of(names[0]);
    let c1 = chars_of(names[1]);
    let c2 = chars_of(names[2]);
    let c3 = chars_of(names[3]);
    let c4 = chars_of(names[4]);
    let c5 = chars_of(names[5]);
    let c6 = chars_of(names[6]);
    let c7 = chars_of(names[7]);
    proof {
        assert(c0@ =~= seq!['i', 'd']);
        assert(c1@ =~= seq!['c', 'r', 'e', 'a', 't', 'e', 'd', '_', 'a', 't']);
        assert(c2@ =~= seq!['u', 'p', 'd', 'a', 't', 'e', 'd', '_', 'a', 't']);
        assert(c3@ =~= seq!['c', 'r', 'e', 'a', 't', 'e', 'd', '_', 'o', 'n']);
        assert(c4@ =~= seq!['u', 'p', 'd', 'a', 't', 'e', 'd', '_', 'o', 'n']);
        assert(c5@ =~= seq!['d', 'e', 'l', 'e', 't', 'e', 'd', '_', 'a', 't']);
        assert(c6@ =~= seq!['s', 'o', 'r', 't', '_', 'o', 'r', 'd', 'e', 'r']);
        assert(c7@ =~= seq!['p', 'o', 's', 'i', 't', 'i', 'o', 'n']);
    }
    chars_equal(&n, &c0) || chars_equal(&n, &c1) || chars_equal(&n, &c2) || chars_equal(&n, &c3) || chars_equal(&n, &c4)
        || chars_equal(&n, &c5) || chars_equal(&n, &c6) || chars_equal(&n, &c7)
}

/// The foreign-key edges (not self-loops) leaving the node with id `id`.
pub open spec fn outgoing_fks(edges: Seq<EdgeModel>, id: Seq<char>) -> Seq<EdgeModel> {
    edges.filter(|e: EdgeModel| e.from == id && !e.is_self_loop && e.kind == EdgeKind::ForeignKey)
}

/// A column name is one of the foreign-key columns of the two edges.
pub open spec fn fk_column_of(out: Seq<EdgeModel>, name: Seq<char>) -> bool {
    out[0].from_columns.contains(name) || out[1].from_columns.contains(name)
}

/// A table that likely only joins two others: exactly two outgoing foreign
/// keys, to two different tables, at least two of its columns belong to
/// them, and every other column is a primary key or bookkeeping column.
pub open spec fn join_candidate(n: NodeModel, edges: Seq<EdgeModel>) -> bool {
    let out = outgoing_fks(edges, n.id);
    &&& n.kind == NodeKind::Table
    &&& out.len() == 2
    &&& out[0].to != out[1].to
    &&& tally(n.columns, |c: ColumnModel| if fk_column_of(out, c.name) { 1nat } else { 0nat }) >= 2
    &&& forall|i: int| 0 <= i < n.columns.len() ==> fk_column_of(out, #[trigger] n.columns[i].name) || join_metadata_column(n.columns[i])
}

/// Whether `name` is among the strings of `list`.
pub(crate) fn contains_string(list: &Vec<String>, name: &String) -> (r: bool)
    ensures
        r == strings_model(list@).contains(name@),
{
    for i in 0..list.len()
        invariant
            forall|q: int| 0 <= q < i ==> list@[q]@ != name@,
    {
        if list[i] == *name {
            proof {
                assert(strings_model(list@)[i as int] == name@);
            }
            return true;
        }
    }
    proof {
        if strings_model(list@).contains(name@) {
            let q = choose|q: int| 0 <= q < strings_model(list@).len() && strings_model(list@)[q] == name@;
            assert(list@[q]@ == name@);
        }
    }
    false
}

/// A column a join table may carry besides its foreign keys: a primary-key
/// column or a bookkeeping one (`id`, timestamps, ordering).
fn is_join_table_metadata_column(column: &LayoutColumn) -> (r: bool)
    ensures
        r == join_metadata_column(column.model()),
{
    column.is_primary_key || is_metadata_name(&column.name)
}

/// Whether the node is likely a join table.
fn is_join_candidate(node: &LayoutNode, edges: &Vec<LayoutEdge>) -> (r: bool)
    ensures
        r == join_candidate(node.model(), edges_model(edges@)),
{
    let ghost em = edges_model(edges@);
    let ghost pred = |e: EdgeModel| e.from == node.id@ && !e.is_self_loop && e.kind == EdgeKind::ForeignKey;
    if node.kind != NodeKind::Table {
        return false;
    }
    let mut count: usize = 0;
    let mut first: usize = 0;
    let mut second: usize = 0;
    for k in 0..edges.len()
        invariant
            em == edges_model(edges@),
            pred == (|e: EdgeModel| e.from == node.id@ && !e.is_self_loop && e.kind == EdgeKind::ForeignKey),
            count == em.subrange(0, k as int).filter(pred).len(),
            count <= k,
            count > 0 ==> first < k && em[first as int] == em.subrange(0, k as int).filter(pred)[0],
            count > 1 ==> second < k && em[second as int] == em.subrange(0, k as int).filter(pred)[1],
    {
        let e = &edges[k];
        proof {
            assert(em[k as int] == e.model());
            assert(em.subrange(0, k + 1) =~= em.subrange(0, k as int).push(em[k as int]));
            em.subrange(0, k as int).lemma_filter_push(em[k as int], pred);
        }
        if e.from == node.id && !e.is_self_loop && e.kind == EdgeKind::ForeignKey {
            if count == 0 {
                first = k;
            } else if count == 1 {
                second = k;
            }
            count = count + 1;
        }
    }
    proof {
        assert(em.subrange(0, em.len() as int) =~= em);
    }
    if count != 2 {
        return false;
    }
    let e1 = &edges[first];
    let e2 = &edges[second];
    proof {
        assert(outgoing_fks(em, node.id@)[0] == e1.model());
        assert(outgoing_fks(em, node.id@)[1] == e2.model());
    }
    if e1.to == e2.to {
        return false;
    }
    let ghost out = outgoing_fks(em, node.id@);
    let ghost g = |c: ColumnModel| if fk_column_of(out, c.name) { 1nat } else { 0nat };
    let ghost cm = node.model().columns;
    let mut fk_column_count: usize = 0;
    let mut all_allowed = true;
    for i in 0..node.columns.len()
        invariant
            out == outgoing_fks(em, node.id@),
            out[0] == e1.model(),
            out[1] == e2.model(),
            cm == node.model().columns,
            g == (|c: ColumnModel| if fk_column_of(out, c.name) { 1nat } else { 0nat }),
            fk_column_count == tally(cm.subrange(0, i as int), g),
            fk_column_count <= i,
            all_allowed == forall|q: int| 0 <= q < i ==> fk_column_of(out, #[trigger] cm[q].name) || join_metadata_column(cm[q]),
    {
        let column = &node.columns[i];
        proof {
            assert(cm[i as int] == column.model());
            crate::tally::lemma_tally_prefix_step(cm, i as int, g);
        }
        let in_fk = contains_string(&e1.from_columns, &column.name) || contains_string(&e2.from_columns, &column.name);
        if in_fk {
            fk_column_count = fk_column_count + 1;
        }
        if !(in_fk || is_join_table_metadata_column(column)) {
            all_allowed = false;
        }
    }
    proof {
        assert(cm.subrange(0, cm.len() as int) =~= cm);
    }
    fk_column_count >= 2 && all_allowed
}

/// A node with its join-table flag raised when it is a join candidate.
pub open spec fn with_join_flag(n: NodeModel, edges: Seq<EdgeModel>) -> NodeModel {
    NodeModel { is_join_table_candidate: n.is_join_table_candidate || join_candidate(n, edges), ..n }
}

/// Mark nodes that are likely join tables.
fn mark_join_table_candidates(nodes: &mut Vec<LayoutNode>, edges: &Vec<LayoutEdge>)
    ensures
        final(nodes)@.len() == old(nodes)@.len(),
        forall|i: int|
            0 <= i < final(nodes)@.len() ==> #[trigger] final(nodes)@[i].model() == with_join_flag(
                old(nodes)@[i].model(),
                edges_model(edges@),
            ),
{
    let n = nodes.len();
    for i in 0..n
        invariant
            n == nodes@.len(),
            n == old(nodes)@.len(),
            forall|q: int| i <= q < n ==> #[trigger] nodes@[q] == old(nodes)@[q],
            forall|q: int|
                0 <= q < i ==> #[trigger] nodes@[q].model() == with_join_flag(old(nodes)@[q].model(), edges_model(edges@)),
    {
        let candidate = is_join_candidate(&nodes[i], edges);
        let mut node = nodes[i].clone();
        node.is_join_table_candidate = node.is_join_table_candidate || candidate;
        proof {
            assert(node.model() =~= with_join_flag(old(nodes)@[i as int].model(), edges_model(edges@)));
        }
        nodes.set(i, node);
    }
}

} // verus!

verus! {

/// The ids of the tables flagged as join tables.
pub open spec fn join_id_set(nodes: Seq<NodeModel>) -> Set<Seq<char>> {
    Set::new(
        |id: Seq<char>|
            exists|i: int|
                0 <= i < nodes.len() && #[trigger] nodes[i].id == id && nodes[i].kind == NodeKind::Table
                    && nodes[i].is_join_table_candidate,
    )
}

/// The label of the first node with id `id` (the id itself if none).
pub open spec fn first_label(nodes: Seq<NodeModel>, id: Seq<char>) -> Seq<char>
    decreases nodes.len(),
{
    if nodes.len() == 0 {
        id
    } else if nodes[0].id == id {
        nodes[0].label
    } else {
        first_label(nodes.drop_first(), id)
    }
}

/// The edge replacing a join table: between the targets of its two foreign
/// keys, carrying the join table's id and label.
pub open spec fn collapsed_edge(nodes: Seq<NodeModel>, edges: Seq<EdgeModel>, id: Seq<char>) -> EdgeModel {
    let out = outgoing_fks(edges, id);
    let label = first_label(nodes, id);
    EdgeModel {
        from: out[0].to,
        to: out[1].to,
        name: Some(seq!['m', '2', 'm', ':'] + label),
        from_columns: out[0].to_columns,
        to_columns: out[1].to_columns,
        kind: EdgeKind::ForeignKey,
        is_self_loop: out[0].to == out[1].to,
        nullable: out[0].nullable && out[1].nullable,
        is_collapsed_join: true,
        collapsed_join_table: Some((id, label)),
    }
}

/// Nodes after collapsing: the join tables are gone.
pub open spec fn collapsed_nodes(nodes: Seq<NodeModel>) -> Seq<NodeModel> {
    nodes.filter(|n: NodeModel| !join_id_set(nodes).contains(n.id))
}

/// Edges after collapsing: the edges not touching a join table, then, by
/// increasing join-table id, one edge per join table with exactly two
/// outgoing foreign keys.
pub open spec fn collapsed_edges(nodes: Seq<NodeModel>, edges: Seq<EdgeModel>) -> Seq<EdgeModel> {
    let joins = join_id_set(nodes);
    edges.filter(|e: EdgeModel| !joins.contains(e.from) && !joins.contains(e.to)) + in_text_order(joins).filter(
        |id: Seq<char>| outgoing_fks(edges, id).len() == 2,
    ).map_values(|id: Seq<char>| collapsed_edge(nodes, edges, id))
}

/// The label of the first node with this id (the id itself if none).
fn first_label_of(nodes: &Vec<LayoutNode>, id: &String) -> (label: String)
    ensures
        label@ == first_label(nodes_model(nodes@), id@),
{
    let ghost nm = nodes_model(nodes@);
    let mut i: usize = 0;
    proof {
        assert(nm.subrange(0, nm.len() as int) =~= nm);
    }
    while i < nodes.len()
        invariant
            nm == nodes_model(nodes@),
            i <= nodes@.len(),
            first_label(nm, id@) == first_label(nm.subrange(i as int, nm.len() as int), id@),
        decreases nodes@.len() - i,
    {
        proof {
            let rest = nm.subrange(i as int, nm.len() as int);
            assert(rest.drop_first() =~= nm.subrange(i + 1, nm.len() as int));
            assert(rest[0] == nodes@[i as int].model());
        }
        if nodes[i].id == *id {
            return nodes[i].label.clone();
        }
        i = i + 1;
    }
    id.clone()
}

/// The outgoing foreign-key edges of a node id: their number and the
/// positions of the first two.
fn outgoing_fk_positions(edges: &Vec<LayoutEdge>, id: &String) -> (r: (usize, usize, usize))
    ensures
        r.0 == outgoing_fks(edges_model(edges@), id@).len(),
        r.0 > 0 ==> r.1 < edges@.len() && edges@[r.1 as int].model() == outgoing_fks(edges_model(edges@), id@)[0],
        r.0 > 1 ==> r.2 < edges@.len() && edges@[r.2 as int].model() == outgoing_fks(edges_model(edges@), id@)[1],
{
    let ghost em = edges_model(edges@);
    let ghost pred = |e: EdgeModel| e.from == id@ && !e.is_self_loop && e.kind == EdgeKind::ForeignKey;
    let mut count: usize = 0;
    let mut first: usize = 0;
    let mut second: usize = 0;
    for k in 0..edges.len()
        invariant
            em == edges_model(edges@),
            pred == (|e: EdgeModel| e.from == id@ && !e.is_self_loop && e.kind == EdgeKind::ForeignKey),
            count == em.subrange(0, k as int).filter(pred).len(),
            count <= k,
            count > 0 ==> first < k && em[first as int] == em.subrange(0, k as int).filter(pred)[0],
            count > 1 ==> second < k && em[second as int] == em.subrange(0, k as int).filter(pred)[1],
    {
        let e = &edges[k];
        proof {
            assert(em[k as int] == e.model());
            assert(em.subrange(0, k + 1) =~= em.subrange(0, k as int).push(em[k as int]));
            em.subrange(0, k as int).lemma_filter_push(em[k as int], pred);
        }
        if e.from == *id && !e.is_self_loop && e.kind == EdgeKind::ForeignKey {
            if count == 0 {
                first = k;
            } else if count == 1 {
                second = k;
            }
            count = count + 1;
        }
    }
    proof {
        assert(em.subrange(0, em.len() as int) =~= em);
    }
    (count, first, second)
}

/// Collapse join tables, removing them from the graph and creating direct
/// edges between the tables they connect.
fn do_collapse_join_tables(nodes: &mut Vec<LayoutNode>, edges: &mut Vec<LayoutEdge>)
    ensures
        nodes_model(final(nodes)@) == collapsed_nodes(nodes_model(old(nodes)@)),
        edges_model(final(edges)@) == collapsed_edges(nodes_model(old(nodes)@), edges_model(old(edges)@)),
{
    let ghost nm = nodes_model(nodes@);
    let ghost em = edges_model(edges@);
    // The join tables, by increasing id.
    let mut join_ids: Vec<String> = Vec::new();
    proof {
        assert(strings_model(join_ids@).to_set() =~= join_id_set(nm.subrange(0, 0)));
    }
    for i in 0..nodes.len()
        invariant
            nm == nodes_model(nodes@),
            sorted_texts(strings_model(join_ids@)),
            strings_model(join_ids@).to_set() == join_id_set(nm.subrange(0, i as int)),
    {
        let node = &nodes[i];
        proof {
            assert(nm[i as int] == node.model());
        }
        let ghost before = join_id_set(nm.subrange(0, i as int));
        if node.kind == NodeKind::Table && node.is_join_table_candidate {
            insert_text_sorted(&mut join_ids, node.id.clone());
            proof {
                assert(join_id_set(nm.subrange(0, i + 1)) =~= before.insert(node.id@)) by {
                    assert forall|id: Seq<char>| join_id_set(nm.subrange(0, i + 1)).contains(id) implies before.insert(node.id@).contains(id) by {
                        let q = choose|q: int| 0 <= q < i + 1 && #[trigger] nm.subrange(0, i + 1)[q].id == id && nm.subrange(0, i + 1)[q].kind == NodeKind::Table && nm.subrange(0, i + 1)[q].is_join_table_candidate;
                        if q < i {
                            assert(nm.subrange(0, i as int)[q] == nm.subrange(0, i + 1)[q]);
                        }
                    }
                    assert forall|id: Seq<char>| before.insert(node.id@).contains(id) implies join_id_set(nm.subrange(0, i + 1)).contains(id) by {
                        if id == node.id@ {
                            assert(nm.subrange(0, i + 1)[i as int] == nm[i as int]);
                            assert(nm.subrange(0, i + 1)[i as int].id == id);
                            assert(nm.subrange(0, i + 1)[i as int].kind == NodeKind::Table);
                            assert(nm.subrange(0, i + 1)[i as int].is_join_table_candidate);
                        } else {
                            let q = choose|q: int| 0 <= q < i && #[trigger] nm.subrange(0, i as int)[q].id == id && nm.subrange(0, i as int)[q].kind == NodeKind::Table && nm.subrange(0, i as int)[q].is_join_table_candidate;
                            assert(nm.subrange(0, i + 1)[q] == nm.subrange(0, i as int)[q]);
                        }
                    }
                }
            }
        } else {
            proof {
                assert(join_id_set(nm.subrange(0, i + 1)) =~= before) by {
                    assert forall|id: Seq<char>| join_id_set(nm.subrange(0, i + 1)).contains(id) implies before.contains(id) by {
                        let q = choose|q: int| 0 <= q < i + 1 && #[trigger] nm.subrange(0, i + 1)[q].id == id && nm.subrange(0, i + 1)[q].kind == NodeKind::Table && nm.subrange(0, i + 1)[q].is_join_table_candidate;
                        assert(q != i);
                        assert(nm.subrange(0, i as int)[q] == nm.subrange(0, i + 1)[q]);
                    }
                    assert forall|id: Seq<char>| before.contains(id) implies join_id_set(nm.subrange(0, i + 1)).contains(id) by {
                        let q = choose|q: int| 0 <= q < i && #[trigger] nm.subrange(0, i as int)[q].id == id && nm.subrange(0, i as int)[q].kind == NodeKind::Table && nm.subrange(0, i as int)[q].is_join_table_candidate;
                        assert(nm.subrange(0, i + 1)[q] == nm.subrange(0, i as int)[q]);
                    }
                }
            }
        }
    }
    let ghost joins = join_id_set(nm);
    let ghost jm = strings_model(join_ids@);
    proof {
        assert(nm.subrange(0, nm.len() as int) =~= nm);
        let chosen = in_text_order(joins);
        assert(sorted_texts(chosen) && chosen.to_set() == joins);
        crate::text::lemma_sorted_texts_unique(chosen, jm);
    }
    // One direct edge per join table with exactly two outgoing foreign keys.
    let ghost has_two = |id: Seq<char>| outgoing_fks(em, id).len() == 2;
    let mut new_edges: Vec<LayoutEdge> = Vec::new();
    for j in 0..join_ids.len()
        invariant
            nm == nodes_model(nodes@),
            em == edges_model(edges@),
            jm == strings_model(join_ids@),
            has_two == (|id: Seq<char>| outgoing_fks(em, id).len() == 2),
            edges_model(new_edges@) == jm.subrange(0, j as int).filter(has_two).map_values(
                |id: Seq<char>| collapsed_edge(nm, em, id),
            ),
    {
        let join_id = &join_ids[j];
        proof {
            assert(jm[j as int] == join_id@);
            assert(jm.subrange(0, j + 1) =~= jm.subrange(0, j as int).push(jm[j as int]));
            jm.subrange(0, j as int).lemma_filter_push(jm[j as int], has_two);
        }
        let (count, a, b) = outgoing_fk_positions(edges, join_id);
        if count == 2 {
            let edge1 = &edges[a];
            let edge2 = &edges[b];
            let label = first_label_of(nodes, join_id);
            let name = crate::text::concat_str("m2m:", label.as_str());
            proof {
                reveal_strlit("m2m:");
                assert(name@ =~= seq!['m', '2', 'm', ':'] + label@);
            }
            let edge = LayoutEdge {
                from: edge1.to.clone(),
                to: edge2.to.clone(),
                name: Some(name),
                from_columns: clone_strings(&edge1.to_columns),
                to_columns: clone_strings(&edge2.to_columns),
                kind: EdgeKind::ForeignKey,
                is_self_loop: edge1.to == edge2.to,
                nullable: edge1.nullable && edge2.nullable,
                is_collapsed_join: true,
                collapsed_join_table: Some(CollapsedJoinTable { table_id: join_id.clone(), table_label: label }),
            };
            let ghost prev = new_edges@;
            new_edges.push(edge);
            proof {
                assert(new_edges@ == prev.push(edge));
                assert(edges_model(new_edges@) =~= edges_model(prev).push(edge.model()));
                assert(edge.model() == collapsed_edge(nm, em, join_id@));
            }
        }
    }
    proof {
        assert(jm.subrange(0, jm.len() as int) =~= jm);
    }
    // Remove the join tables.
    let ghost keep_node = |n: NodeModel| !joins.contains(n.id);
    let mut kept_nodes: Vec<LayoutNode> = Vec::new();
    for i in 0..nodes.len()
        invariant
            nm == nodes_model(nodes@),
            jm == strings_model(join_ids@),
            jm.to_set() == joins,
            keep_node == (|n: NodeModel| !joins.contains(n.id)),
            nodes_model(kept_nodes@) == nm.subrange(0, i as int).filter(keep_node),
    {
        let node = &nodes[i];
        proof {
            assert(nm[i as int] == node.model());
            assert(nm.subrange(0, i + 1) =~= nm.subrange(0, i as int).push(nm[i as int]));
            nm.subrange(0, i as int).lemma_filter_push(nm[i as int], keep_node);
        }
        if !contains_string(&join_ids, &node.id) {
            let copy = node.clone();
            let ghost prev = kept_nodes@;
            kept_nodes.push(copy);
            proof {
                assert(copy.model() =~= node.model());
                assert(kept_nodes@ == prev.push(copy));
                assert(nodes_model(kept_nodes@) =~= nodes_model(prev).push(copy.model()));
            }
        }
    }
    // Keep the edges that do not touch a join table, then add the new ones.
    let ghost keep_edge = |e: EdgeModel| !joins.contains(e.from) && !joins.contains(e.to);
    let mut kept_edges: Vec<LayoutEdge> = Vec::new();
    for k in 0..edges.len()
        invariant
            em == edges_model(edges@),
            jm == strings_model(join_ids@),
            jm.to_set() == joins,
            keep_edge == (|e: EdgeModel| !joins.contains(e.from) && !joins.contains(e.to)),
            edges_model(kept_edges@) == em.subrange(0, k as int).filter(keep_edge),
    {
        let edge = &edges[k];
        proof {
            assert(em[k as int] == edge.model());
            assert(em.subrange(0, k + 1) =~= em.subrange(0, k as int).push(em[k as int]));
            em.subrange(0, k as int).lemma_filter_push(em[k as int], keep_edge);
        }
        if !contains_string(&join_ids, &edge.from) && !contains_string(&join_ids, &edge.to) {
            let copy = edge.clone();
            let ghost prev = kept_edges@;
            kept_edges.push(copy);
            proof {
                assert(copy.model() =~= edge.model());
                assert(kept_edges@ == prev.push(copy));
                assert(edges_model(kept_edges@) =~= edges_model(prev).push(copy.model()));
            }
        }
    }
    proof {
        assert(nm.subrange(0, nm.len() as int) =~= nm);
        assert(em.subrange(0, em.len() as int) =~= em);
    }
    append_edges(&mut kept_edges, new_edges);
    *nodes = kept_nodes;
    *edges = kept_edges;
}

} // verus!

verus! {

/// Indices of the nodes whose schema name is `key`, in order.
pub open spec fn indices_in_schema(nodes: Seq<NodeModel>, key: Option<Seq<char>>) -> Seq<usize>
    decreases nodes.len(),
{
    if nodes.len() == 0 {
        Seq::empty()
    } else if nodes.last().schema_name == key {
        indices_in_schema(nodes.drop_last(), key).push((nodes.len() - 1) as usize)
    } else {
        indices_in_schema(nodes.drop_last(), key)
    }
}

/// Indices of the nodes whose table-name prefix is `key`, in order.
pub open spec fn indices_with_prefix(nodes: Seq<NodeModel>, key: Seq<char>) -> Seq<usize>
    decreases nodes.len(),
{
    if nodes.len() == 0 {
        Seq::empty()
    } else if prefix_of(nodes.last().table_name) == key {
        indices_with_prefix(nodes.drop_last(), key).push((nodes.len() - 1) as usize)
    } else {
        indices_with_prefix(nodes.drop_last(), key)
    }
}

/// The schema names present among the nodes.
pub open spec fn schema_names(nodes: Seq<NodeModel>) -> Set<Seq<char>> {
    Set::new(|s: Seq<char>| exists|i: int| 0 <= i < nodes.len() && #[trigger] nodes[i].schema_name == Some(s))
}

/// Some node has no schema name.
pub open spec fn some_without_schema(nodes: Seq<NodeModel>) -> bool {
    exists|i: int| 0 <= i < nodes.len() && #[trigger] nodes[i].schema_name is None
}

/// The group keys by schema: nodes without a schema first, then the schema
/// names in string order.
pub open spec fn schema_group_keys(nodes: Seq<NodeModel>) -> Seq<Option<Seq<char>>> {
    (if some_without_schema(nodes) {
        seq![None]
    } else {
        Seq::empty()
    }) + in_text_order(schema_names(nodes)).map_values(|s: Seq<char>| Some(s))
}

/// One group per schema key: `schema_<position>`, labelled with the schema
/// name (`public` for nodes without one).
pub open spec fn schema_groups(nodes: Seq<NodeModel>) -> Seq<GroupModel> {
    let keys = schema_group_keys(nodes);
    Seq::new(
        keys.len(),
        |g: int|
            GroupModel {
                id: seq!['s', 'c', 'h', 'e', 'm', 'a', '_'] + decimal(g as nat),
                label: match keys[g] {
                    Some(s) => s,
                    None => seq!['p', 'u', 'b', 'l', 'i', 'c'],
                },
                node_indices: indices_in_schema(nodes, keys[g]),
            },
    )
}

/// The table-name prefixes present among the nodes.
pub open spec fn prefixes(nodes: Seq<NodeModel>) -> Set<Seq<char>> {
    Set::new(|p: Seq<char>| exists|i: int| 0 <= i < nodes.len() && prefix_of(#[trigger] nodes[i].table_name) == p)
}

/// One group per table-name prefix, in string order: `prefix_<position>`,
/// labelled with the prefix.
pub open spec fn prefix_groups(nodes: Seq<NodeModel>) -> Seq<GroupModel> {
    let keys = in_text_order(prefixes(nodes));
    Seq::new(
        keys.len(),
        |g: int|
            GroupModel {
                id: seq!['p', 'r', 'e', 'f', 'i', 'x', '_'] + decimal(g as nat),
                label: keys[g],
                node_indices: indices_with_prefix(nodes, keys[g]),
            },
    )
}

/// The schema names of any list of nodes can be listed in string order.
proof fn lemma_schema_names_in_text_order(nodes: Seq<NodeModel>)
    ensures
        sorted_texts(in_text_order(schema_names(nodes))),
        in_text_order(schema_names(nodes)).to_set() == schema_names(nodes),
    decreases nodes.len(),
{
    if nodes.len() == 0 {
        let t = Seq::<Seq<char>>::empty();
        assert(t.to_set() =~= schema_names(nodes));
        assert(sorted_texts(t) && t.to_set() == schema_names(nodes));
    } else {
        let pre = nodes.drop_last();
        lemma_schema_names_in_text_order(pre);
        let t = in_text_order(schema_names(pre));
        assert forall|k: int| 0 <= k < pre.len() implies #[trigger] pre[k] == nodes[k] by {}
        match nodes.last().schema_name {
            Some(x) => {
                let u = crate::text::lemma_sorted_texts_insert(t, x);
                assert(schema_names(nodes) =~= schema_names(pre).insert(x)) by {
                    assert forall|y: Seq<char>| schema_names(nodes).contains(y) implies schema_names(pre).insert(
                        y,
                    ).contains(y) && (y == x || schema_names(pre).contains(y)) by {
                        let k = choose|k: int| 0 <= k < nodes.len() && #[trigger] nodes[k].schema_name == Some(y);
                        if k < nodes.len() - 1 {
                            assert(pre[k].schema_name == Some(y));
                        }
                    }
                    assert(nodes[nodes.len() - 1].schema_name == Some(x));
                    assert forall|y: Seq<char>| schema_names(pre).contains(y) implies schema_names(nodes).contains(y) by {
                        let k = choose|k: int| 0 <= k < pre.len() && #[trigger] pre[k].schema_name == Some(y);
                        assert(nodes[k].schema_name == Some(y));
                    }
                }
                assert(sorted_texts(u) && u.to_set() == schema_names(nodes));
            },
            None => {
                assert(schema_names(nodes) =~= schema_names(pre)) by {
                    assert forall|y: Seq<char>| schema_names(nodes).contains(y) implies schema_names(pre).contains(y) by {
                        let k = choose|k: int| 0 <= k < nodes.len() && #[trigger] nodes[k].schema_name == Some(y);
                        assert(k < nodes.len() - 1);
                        assert(pre[k].schema_name == Some(y));
                    }
                    assert forall|y: Seq<char>| schema_names(pre).contains(y) implies schema_names(nodes).contains(y) by {
                        let k = choose|k: int| 0 <= k < pre.len() && #[trigger] pre[k].schema_name == Some(y);
                        assert(nodes[k].schema_name == Some(y));
                    }
                }
                assert(sorted_texts(t) && t.to_set() == schema_names(nodes));
            },
        }
    }
}

/// The indices collected for a schema key are node indices, and a node is
/// among them exactly when its schema name is the key.
proof fn lemma_indices_in_schema_members(nodes: Seq<NodeModel>, key: Option<Seq<char>>)
    requires
        nodes.len() <= usize::MAX,
    ensures
        forall|k: int|
            0 <= k < indices_in_schema(nodes, key).len() ==> #[trigger] indices_in_schema(nodes, key)[k] < nodes.len(),
        forall|i: int|
            0 <= i < nodes.len() ==> (indices_in_schema(nodes, key).contains(i as usize) <==> (
            #[trigger] nodes[i]).schema_name == key),
        forall|k1: int, k2: int|
            0 <= k1 < k2 < indices_in_schema(nodes, key).len() ==> #[trigger] indices_in_schema(nodes, key)[k1]
                < #[trigger] indices_in_schema(nodes, key)[k2],
    decreases nodes.len(),
{
    if nodes.len() > 0 {
        let pre = nodes.drop_last();
        lemma_indices_in_schema_members(pre, key);
        let r0 = indices_in_schema(pre, key);
        let r = indices_in_schema(nodes, key);
        let last = (nodes.len() - 1) as usize;
        assert forall|i: int| 0 <= i < nodes.len() implies (r.contains(i as usize) <==> (
        #[trigger] nodes[i]).schema_name == key) by {
            if i < nodes.len() - 1 {
                assert(pre[i] == nodes[i]);
                if nodes.last().schema_name == key {
                    assert(r == r0.push(last));
                    if r.contains(i as usize) {
                        let k = choose|k: int| 0 <= k < r.len() && r[k] == i as usize;
                        if k == r0.len() {
                            assert(r[k] == last);
                            assert(false);
                        }
                        assert(r0[k] == r[k]);
                    }
                    if r0.contains(i as usize) {
                        let k = choose|k: int| 0 <= k < r0.len() && r0[k] == i as usize;
                        assert(r[k] == r0[k]);
                    }
                }
            } else {
                if r0.contains(last) {
                    let k = choose|k: int| 0 <= k < r0.len() && r0[k] == last;
                    assert(r0[k] < pre.len());
                }
                if nodes.last().schema_name == key {
                    assert(r[r0.len() as int] == last);
                } else {
                    assert(r == r0);
                }
            }
        }
        if nodes.last().schema_name == key {
            assert forall|k1: int, k2: int| 0 <= k1 < k2 < r.len() implies #[trigger] r[k1] < #[trigger] r[k2] by {
                assert(r[k1] == r0[k1]);
                if k2 < r0.len() {
                    assert(r[k2] == r0[k2]);
                } else {
                    assert(r0[k1] < pre.len());
                }
            }
        }
    }
}

/// Node `i` is a member of one of `groups`.
pub open spec fn in_some_group(groups: Seq<GroupModel>, i: int) -> bool {
    exists|g: int| 0 <= g < groups.len() && #[trigger] groups[g].node_indices.contains(i as usize)
}

/// Grouping by schema sorts every node into exactly one group: a node is a
/// member of a group exactly when its schema name is that group's key (a
/// node without a schema only of the `public` group), and the group carries
/// the node's schema name as its label (`public` for none). Group members
/// are node indices.
pub proof fn lemma_schema_groups_partition(nodes: Seq<NodeModel>)
    requires
        nodes.len() <= usize::MAX,
    ensures
        forall|g: int, i: int|
            0 <= g < schema_groups(nodes).len() && 0 <= i < nodes.len() ==> (#[trigger] schema_groups(
                nodes,
            )[g].node_indices.contains(i as usize) <==> #[trigger] nodes[i].schema_name == schema_group_keys(
                nodes,
            )[g]),
        forall|g: int, i: int|
            0 <= g < schema_groups(nodes).len() && 0 <= i < nodes.len() && #[trigger] schema_groups(
                nodes,
            )[g].node_indices.contains(i as usize) ==> schema_groups(nodes)[g].label == match #[trigger] nodes[i].schema_name {
                Some(s) => s,
                None => seq!['p', 'u', 'b', 'l', 'i', 'c'],
            },
        forall|i: int| 0 <= i < nodes.len() ==> #[trigger] in_some_group(schema_groups(nodes), i),
        forall|g1: int, g2: int, i: int|
            0 <= g1 < schema_groups(nodes).len() && 0 <= g2 < schema_groups(nodes).len() && 0 <= i
                < nodes.len() && #[trigger] schema_groups(nodes)[g1].node_indices.contains(i as usize)
                && #[trigger] schema_groups(nodes)[g2].node_indices.contains(i as usize) ==> g1 == g2,
        forall|g: int, k: int|
            0 <= g < schema_groups(nodes).len() && 0 <= k < schema_groups(nodes)[g].node_indices.len()
                ==> #[trigger] schema_groups(nodes)[g].node_indices[k] < nodes.len(),
        forall|g: int, k1: int, k2: int|
            0 <= g < schema_groups(nodes).len() && 0 <= k1 < k2 < schema_groups(nodes)[g].node_indices.len()
                ==> #[trigger] schema_groups(nodes)[g].node_indices[k1] < #[trigger] schema_groups(
                nodes,
            )[g].node_indices[k2],
        forall|g: int| 0 <= g < schema_groups(nodes).len() ==> #[trigger] schema_groups(nodes)[g].node_indices.len() > 0,
        forall|g1: int, g2: int|
            0 <= g1 < g2 < schema_group_keys(nodes).len() ==> (#[trigger] schema_group_keys(nodes)[g1] is None || (
            schema_group_keys(nodes)[g1] is Some && #[trigger] schema_group_keys(nodes)[g2] is Some && text_less(
                schema_group_keys(nodes)[g1]->Some_0,
                schema_group_keys(nodes)[g2]->Some_0,
            ))),
{
    let keys = schema_group_keys(nodes);
    let groups = schema_groups(nodes);
    let names = in_text_order(schema_names(nodes));
    lemma_schema_names_in_text_order(nodes);
    let off: int = if some_without_schema(nodes) { 1 } else { 0 };
    assert(keys.len() == off + names.len());
    assert forall|q: int| 0 <= q < names.len() implies #[trigger] keys[off + q] == Some(names[q]) by {
        assert(names.map_values(|s: Seq<char>| Some(s))[q] == Some(names[q]));
    }
    assert(off == 1 ==> keys[0] == None::<Seq<char>>);
    assert forall|g: int| 0 <= g < keys.len() implies groups[g].node_indices == indices_in_schema(nodes, #[trigger] keys[g]) by {}
    // keys are distinct
    assert forall|g1: int, g2: int| 0 <= g1 < keys.len() && 0 <= g2 < keys.len() && #[trigger] keys[g1] == #[trigger] keys[g2] implies g1 == g2 by {
        if g1 >= off && g2 >= off {
            assert(keys[g1] == Some(names[g1 - off]));
            assert(keys[g2] == Some(names[g2 - off]));
            if g1 < g2 {
                assert(text_less(names[g1 - off], names[g2 - off]));
                crate::text::lemma_text_less_irreflexive(names[g1 - off]);
            } else if g2 < g1 {
                assert(text_less(names[g2 - off], names[g1 - off]));
                crate::text::lemma_text_less_irreflexive(names[g2 - off]);
            }
        } else if g1 >= off {
            assert(keys[g1] == Some(names[g1 - off]));
        } else if g2 >= off {
            assert(keys[g2] == Some(names[g2 - off]));
        }
    }
    assert forall|g: int|
        #![trigger keys[g]]
        0 <= g < keys.len() implies {
        &&& forall|k: int| 0 <= k < indices_in_schema(nodes, keys[g]).len() ==> #[trigger] indices_in_schema(nodes, keys[g])[k] < nodes.len()
        &&& forall|i: int| 0 <= i < nodes.len() ==> (indices_in_schema(nodes, keys[g]).contains(i as usize) <==> (#[trigger] nodes[i]).schema_name == keys[g])
    } by {
        lemma_indices_in_schema_members(nodes, keys[g]);
    }
    // every node's schema is a key
    assert forall|i: int|
        #![trigger nodes[i]]
        0 <= i < nodes.len() implies exists|g: int| 0 <= g < keys.len() && #[trigger] keys[g] == nodes[i].schema_name by {
        match nodes[i].schema_name {
            None => {
                assert(some_without_schema(nodes));
                assert(keys[0] == nodes[i].schema_name);
            },
            Some(x) => {
                assert(schema_names(nodes).contains(x));
                assert(names.to_set().contains(x));
                let q = choose|q: int| 0 <= q < names.len() && names[q] == x;
                assert(keys[off + q] == nodes[i].schema_name);
            },
        }
    }
    assert forall|g: int, i: int|
        0 <= g < groups.len() && 0 <= i < nodes.len() implies (#[trigger] groups[g].node_indices.contains(i as usize) <==> #[trigger] nodes[i].schema_name == keys[g]) by {
        assert(groups[g].node_indices == indices_in_schema(nodes, keys[g]));
    }
    assert forall|g1: int, g2: int, i: int|
        0 <= g1 < groups.len() && 0 <= g2 < groups.len() && 0 <= i < nodes.len() && #[trigger] groups[g1].node_indices.contains(i as usize)
            && #[trigger] groups[g2].node_indices.contains(i as usize) implies g1 == g2 by {
        assert(nodes[i].schema_name == keys[g1]);
        assert(nodes[i].schema_name == keys[g2]);
    }
    assert forall|g: int, k1: int, k2: int|
        0 <= g < groups.len() && 0 <= k1 < k2 < groups[g].node_indices.len() implies #[trigger] groups[g].node_indices[k1]
            < #[trigger] groups[g].node_indices[k2] by {
        assert(groups[g].node_indices == indices_in_schema(nodes, keys[g]));
        lemma_indices_in_schema_members(nodes, keys[g]);
        assert(indices_in_schema(nodes, keys[g])[k1] < indices_in_schema(nodes, keys[g])[k2]);
    }
    assert forall|g: int| 0 <= g < groups.len() implies #[trigger] groups[g].node_indices.len() > 0 by {
        assert(groups[g].node_indices == indices_in_schema(nodes, keys[g]));
        let i: int = if g < off {
            choose|i: int| 0 <= i < nodes.len() && #[trigger] nodes[i].schema_name is None
        } else {
            assert(keys[g] == Some(names[g - off]));
            assert(names.to_set().contains(names[g - off]));
            assert(schema_names(nodes).contains(names[g - off]));
            choose|i: int| 0 <= i < nodes.len() && #[trigger] nodes[i].schema_name == Some(names[g - off])
        };
        assert(nodes[i].schema_name == keys[g]);
        assert(groups[g].node_indices.contains(i as usize));
    }
    assert forall|g1: int, g2: int|
        0 <= g1 < g2 < keys.len() implies (#[trigger] keys[g1] is None || (keys[g1] is Some && #[trigger] keys[g2] is Some
            && text_less(keys[g1]->Some_0, keys[g2]->Some_0))) by {
        if g1 >= off {
            assert(keys[g1] == Some(names[g1 - off]));
            assert(keys[g2] == Some(names[g2 - off]));
            assert(text_less(names[g1 - off], names[g2 - off]));
        }
    }
    assert forall|g: int, k: int| 0 <= g < groups.len() && 0 <= k < groups[g].node_indices.len() implies #[trigger] groups[g].node_indices[k] < nodes.len() by {
        assert(groups[g].node_indices == indices_in_schema(nodes, keys[g]));
        assert(indices_in_schema(nodes, keys[g])[k] < nodes.len());
    }
    assert forall|i: int| 0 <= i < nodes.len() implies #[trigger] in_some_group(groups, i) by {
        assert(nodes[i] == nodes[i]);
        let g = choose|g: int| 0 <= g < keys.len() && #[trigger] keys[g] == nodes[i].schema_name;
        assert(groups[g].node_indices.contains(i as usize));
    }
}

/// The table-name prefixes of any list of nodes can be listed in string order.
proof fn lemma_prefixes_in_text_order(nodes: Seq<NodeModel>)
    ensures
        sorted_texts(in_text_order(prefixes(nodes))),
        in_text_order(prefixes(nodes)).to_set() == prefixes(nodes),
    decreases nodes.len(),
{
    if nodes.len() == 0 {
        let t = Seq::<Seq<char>>::empty();
        assert(t.to_set() =~= prefixes(nodes));
        assert(sorted_texts(t) && t.to_set() == prefixes(nodes));
    } else {
        let pre = nodes.drop_last();
        lemma_prefixes_in_text_order(pre);
        let t = in_text_order(prefixes(pre));
        let x = prefix_of(nodes.last().table_name);
        let u = crate::text::lemma_sorted_texts_insert(t, x);
        assert(prefixes(nodes) =~= prefixes(pre).insert(x)) by {
            assert forall|y: Seq<char>| prefixes(nodes).contains(y) implies (y == x || prefixes(pre).contains(y)) by {
                let k = choose|k: int| 0 <= k < nodes.len() && prefix_of(#[trigger] nodes[k].table_name) == y;
                if k < nodes.len() - 1 {
                    assert(pre[k] == nodes[k]);
                }
            }
            assert(prefix_of(nodes[nodes.len() - 1].table_name) == x);
            assert forall|y: Seq<char>| prefixes(pre).contains(y) implies prefixes(nodes).contains(y) by {
                let k = choose|k: int| 0 <= k < pre.len() && prefix_of(#[trigger] pre[k].table_name) == y;
                assert(nodes[k] == pre[k]);
            }
        }
        assert(sorted_texts(u) && u.to_set() == prefixes(nodes));
    }
}

/// The indices collected for a prefix are node indices, in increasing order,
/// and a node is among them exactly when its table-name prefix is that prefix.
proof fn lemma_indices_with_prefix_members(nodes: Seq<NodeModel>, key: Seq<char>)
    requires
        nodes.len() <= usize::MAX,
    ensures
        forall|k: int|
            0 <= k < indices_with_prefix(nodes, key).len() ==> #[trigger] indices_with_prefix(nodes, key)[k] < nodes.len(),
        forall|i: int|
            0 <= i < nodes.len() ==> (indices_with_prefix(nodes, key).contains(i as usize) <==> prefix_of(
                (#[trigger] nodes[i]).table_name,
            ) == key),
        forall|k1: int, k2: int|
            0 <= k1 < k2 < indices_with_prefix(nodes, key).len() ==> #[trigger] indices_with_prefix(nodes, key)[k1]
                < #[trigger] indices_with_prefix(nodes, key)[k2],
    decreases nodes.len(),
{
    if nodes.len() > 0 {
        let pre = nodes.drop_last();
        lemma_indices_with_prefix_members(pre, key);
        let r0 = indices_with_prefix(pre, key);
        let r = indices_with_prefix(nodes, key);
        let last = (nodes.len() - 1) as usize;
        let hit = prefix_of(nodes.last().table_name) == key;
        assert forall|i: int| 0 <= i < nodes.len() implies (r.contains(i as usize) <==> prefix_of(
            (#[trigger] nodes[i]).table_name,
        ) == key) by {
            if i < nodes.len() - 1 {
                assert(pre[i] == nodes[i]);
                if hit {
                    assert(r == r0.push(last));
                    if r.contains(i as usize) {
                        let k = choose|k: int| 0 <= k < r.len() && r[k] == i as usize;
                        if k == r0.len() {
                            assert(r[k] == last);
                            assert(false);
                        }
                        assert(r0[k] == r[k]);
                    }
                    if r0.contains(i as usize) {
                        let k = choose|k: int| 0 <= k < r0.len() && r0[k] == i as usize;
                        assert(r[k] == r0[k]);
                    }
                }
            } else {
                if r0.contains(last) {
                    let k = choose|k: int| 0 <= k < r0.len() && r0[k] == last;
                    assert(r0[k] < pre.len());
                }
                if hit {
                    assert(r[r0.len() as int] == last);
                } else {
                    assert(r == r0);
                }
            }
        }
        if hit {
            assert forall|k1: int, k2: int| 0 <= k1 < k2 < r.len() implies #[trigger] r[k1] < #[trigger] r[k2] by {
                assert(r[k1] == r0[k1]);
                if k2 < r0.len() {
                    assert(r[k2] == r0[k2]);
                } else {
                    assert(r0[k1] < pre.len());
                }
            }
        }
    }
}

/// Grouping by prefix sorts every node into exactly one group: a node is a
/// member of a group exactly when its table-name prefix is that group's
/// label. Groups come in increasing string order of their prefixes, none is
/// empty, and each lists its members' node indices in increasing order.
pub proof fn lemma_prefix_groups_partition(nodes: Seq<NodeModel>)
    requires
        nodes.len() <= usize::MAX,
    ensures
        forall|g: int, i: int|
            0 <= g < prefix_groups(nodes).len() && 0 <= i < nodes.len() ==> (#[trigger] prefix_groups(
                nodes,
            )[g].node_indices.contains(i as usize) <==> prefix_of(#[trigger] nodes[i].table_name) == prefix_groups(
                nodes,
            )[g].label),
        forall|i: int| 0 <= i < nodes.len() ==> #[trigger] in_some_group(prefix_groups(nodes), i),
        forall|g1: int, g2: int, i: int|
            0 <= g1 < prefix_groups(nodes).len() && 0 <= g2 < prefix_groups(nodes).len() && 0 <= i
                < nodes.len() && #[trigger] prefix_groups(nodes)[g1].node_indices.contains(i as usize)
                && #[trigger] prefix_groups(nodes)[g2].node_indices.contains(i as usize) ==> g1 == g2,
        forall|g: int, k: int|
            0 <= g < prefix_groups(nodes).len() && 0 <= k < prefix_groups(nodes)[g].node_indices.len()
                ==> #[trigger] prefix_groups(nodes)[g].node_indices[k] < nodes.len(),
        forall|g: int, k1: int, k2: int|
            0 <= g < prefix_groups(nodes).len() && 0 <= k1 < k2 < prefix_groups(nodes)[g].node_indices.len()
                ==> #[trigger] prefix_groups(nodes)[g].node_indices[k1] < #[trigger] prefix_groups(
                nodes,
            )[g].node_indices[k2],
        forall|g: int| 0 <= g < prefix_groups(nodes).len() ==> #[trigger] prefix_groups(nodes)[g].node_indices.len() > 0,
        forall|g1: int, g2: int|
            0 <= g1 < g2 < prefix_groups(nodes).len() ==> text_less(
                #[trigger] prefix_groups(nodes)[g1].label,
                #[trigger] prefix_groups(nodes)[g2].label,
            ),
{
    let groups = prefix_groups(nodes);
    let keys = in_text_order(prefixes(nodes));
    lemma_prefixes_in_text_order(nodes);
    assert forall|g: int|
        #![trigger keys[g]]
        0 <= g < keys.len() implies {
        &&& groups[g].label == keys[g]
        &&& groups[g].node_indices == indices_with_prefix(nodes, keys[g])
        &&& forall|k: int| 0 <= k < indices_with_prefix(nodes, keys[g]).len() ==> #[trigger] indices_with_prefix(nodes, keys[g])[k] < nodes.len()
        &&& forall|i: int| 0 <= i < nodes.len() ==> (indices_with_prefix(nodes, keys[g]).contains(i as usize) <==> prefix_of((#[trigger] nodes[i]).table_name) == keys[g])
        &&& forall|k1: int, k2: int| 0 <= k1 < k2 < indices_with_prefix(nodes, keys[g]).len() ==> #[trigger] indices_with_prefix(nodes, keys[g])[k1] < #[trigger] indices_with_prefix(nodes, keys[g])[k2]
    } by {
        lemma_indices_with_prefix_members(nodes, keys[g]);
    }
    assert forall|g1: int, g2: int| 0 <= g1 < g2 < groups.len() implies text_less(#[trigger] groups[g1].label, #[trigger] groups[g2].label) by {
        assert(groups[g1].label == keys[g1]);
        assert(groups[g2].label == keys[g2]);
    }
    assert forall|g: int, i: int|
        0 <= g < groups.len() && 0 <= i < nodes.len() implies (#[trigger] groups[g].node_indices.contains(i as usize) <==> prefix_of(#[trigger] nodes[i].table_name) == groups[g].label) by {
        assert(groups[g].label == keys[g]);
    }
    assert forall|g1: int, g2: int, i: int|
        0 <= g1 < groups.len() && 0 <= g2 < groups.len() && 0 <= i < nodes.len() && #[trigger] groups[g1].node_indices.contains(i as usize)
            && #[trigger] groups[g2].node_indices.contains(i as usize) implies g1 == g2 by {
        assert(groups[g1].label == keys[g1]);
        assert(groups[g2].label == keys[g2]);
        assert(prefix_of(nodes[i].table_name) == keys[g1]);
        assert(prefix_of(nodes[i].table_name) == keys[g2]);
        if g1 < g2 {
            assert(text_less(keys[g1], keys[g2]));
            crate::text::lemma_text_less_irreflexive(keys[g1]);
        } else if g2 < g1 {
            assert(text_less(keys[g2], keys[g1]));
            crate::text::lemma_text_less_irreflexive(keys[g2]);
        }
    }
    assert forall|i: int| 0 <= i < nodes.len() implies #[trigger] in_some_group(groups, i) by {
        let x = prefix_of(nodes[i].table_name);
        assert(prefixes(nodes).contains(x));
        assert(keys.to_set().contains(x));
        let g = choose|g: int| 0 <= g < keys.len() && keys[g] == x;
        assert(keys[g] == keys[g]);
        assert(groups[g].node_indices.contains(i as usize));
    }
    assert forall|g: int, k: int| 0 <= g < groups.len() && 0 <= k < groups[g].node_indices.len() implies #[trigger] groups[g].node_indices[k] < nodes.len() by {
        assert(keys[g] == keys[g]);
    }
    assert forall|g: int, k1: int, k2: int|
        0 <= g < groups.len() && 0 <= k1 < k2 < groups[g].node_indices.len() implies #[trigger] groups[g].node_indices[k1]
            < #[trigger] groups[g].node_indices[k2] by {
        assert(keys[g] == keys[g]);
    }
    assert forall|g: int| 0 <= g < groups.len() implies #[trigger] groups[g].node_indices.len() > 0 by {
        assert(keys[g] == keys[g]);
        assert(keys.to_set().contains(keys[g]));
        assert(prefixes(nodes).contains(keys[g]));
        let i = choose|i: int| 0 <= i < nodes.len() && prefix_of(#[trigger] nodes[i].table_name) == keys[g];
        assert(groups[g].node_indices.contains(i as usize));
    }
}

/// Indices of the nodes whose schema name is `key`.
fn collect_schema_indices(nodes: &Vec<LayoutNode>, key: &Option<String>) -> (out: Vec<usize>)
    ensures
        out@ == indices_in_schema(nodes_model(nodes@), opt_view(*key)),
{
    let ghost nm = nodes_model(nodes@);
    let mut out: Vec<usize> = Vec::new();
    for i in 0..nodes.len()
        invariant
            nm == nodes_model(nodes@),
            out@ == indices_in_schema(nm.subrange(0, i as int), opt_view(*key)),
    {
        proof {
            assert(nm.subrange(0, i + 1).drop_last() =~= nm.subrange(0, i as int));
            assert(nm.subrange(0, i + 1).last() == nodes@[i as int].model());
        }
        let same = match (&nodes[i].schema_name, key) {
            (Some(a), Some(b)) => *a == *b,
            (None, None) => true,
            _ => false,
        };
        if same {
            out.push(i);
        }
    }
    proof {
        assert(nm.subrange(0, nm.len() as int) =~= nm);
    }
    out
}

/// A group with id `<stem><position>`.
fn make_group(stem: &str, position: usize, label: String, node_indices: Vec<usize>) -> (g: LayoutGroup)
    ensures
        g.model() == (GroupModel { id: stem@ + decimal(position as nat), label: label@, node_indices: node_indices@ }),
{
    let digits = crate::text::decimal_string(position);
    let id = crate::text::concat_str(stem, digits.as_str());
    LayoutGroup { id, label, node_indices }
}

/// Group nodes by schema name.
fn group_by_schema(nodes: &Vec<LayoutNode>) -> (groups: Vec<LayoutGroup>)
    ensures
        groups_model(groups@) == schema_groups(nodes_model(nodes@)),
{
    let ghost nm = nodes_model(nodes@);
    let mut has_none = false;
    let mut names: Vec<String> = Vec::new();
    proof {
        assert(strings_model(names@).to_set() =~= schema_names(nm.subrange(0, 0)));
    }
    for i in 0..nodes.len()
        invariant
            nm == nodes_model(nodes@),
            has_none == some_without_schema(nm.subrange(0, i as int)),
            sorted_texts(strings_model(names@)),
            strings_model(names@).to_set() == schema_names(nm.subrange(0, i as int)),
    {
        let ghost pre = nm.subrange(0, i as int);
        let ghost post = nm.subrange(0, i + 1);
        proof {
            assert(post[i as int] == nodes@[i as int].model());
            assert forall|q: int| 0 <= q < i implies #[trigger] post[q] == pre[q] by {}
        }
        match &nodes[i].schema_name {
            Some(s) => {
                insert_text_sorted(&mut names, s.clone());
                proof {
                    assert(schema_names(post) =~= schema_names(pre).insert(s@)) by {
                        assert forall|x: Seq<char>| schema_names(post).contains(x) implies schema_names(pre).insert(s@).contains(x) by {
                            let q = choose|q: int| 0 <= q < post.len() && #[trigger] post[q].schema_name == Some(x);
                            if q < i {
                                assert(pre[q].schema_name == Some(x));
                            }
                        }
                        assert forall|x: Seq<char>| schema_names(pre).insert(s@).contains(x) implies schema_names(post).contains(x) by {
                            if x == s@ {
                                assert(post[i as int].schema_name == Some(x));
                            } else {
                                let q = choose|q: int| 0 <= q < pre.len() && #[trigger] pre[q].schema_name == Some(x);
                                assert(post[q].schema_name == Some(x));
                            }
                        }
                    }
                    assert(some_without_schema(post) == some_without_schema(pre)) by {
                        if some_without_schema(post) {
                            let q = choose|q: int| 0 <= q < post.len() && #[trigger] post[q].schema_name is None;
                            assert(q != i);
                            assert(pre[q].schema_name is None);
                        }
                        if some_without_schema(pre) {
                            let q = choose|q: int| 0 <= q < pre.len() && #[trigger] pre[q].schema_name is None;
                            assert(post[q].schema_name is None);
                        }
                    }
                }
            },
            None => {
                has_none = true;
                proof {
                    assert(post[i as int].schema_name is None);
                    assert(schema_names(post) =~= schema_names(pre)) by {
                        assert forall|x: Seq<char>| schema_names(post).contains(x) implies schema_names(pre).contains(x) by {
                            let q = choose|q: int| 0 <= q < post.len() && #[trigger] post[q].schema_name == Some(x);
                            assert(q != i);
                            assert(pre[q].schema_name == Some(x));
                        }
                        assert forall|x: Seq<char>| schema_names(pre).contains(x) implies schema_names(post).contains(x) by {
                            let q = choose|q: int| 0 <= q < pre.len() && #[trigger] pre[q].schema_name == Some(x);
                            assert(post[q].schema_name == Some(x));
                        }
                    }
                }
            },
        }
    }
    let ghost names_m = strings_model(names@);
    proof {
        assert(nm.subrange(0, nm.len() as int) =~= nm);
        let chosen = in_text_order(schema_names(nm));
        assert(sorted_texts(chosen) && chosen.to_set() == schema_names(nm));
        crate::text::lemma_sorted_texts_unique(chosen, names_m);
    }
    let ghost keys = schema_group_keys(nm);
    let ghost target = schema_groups(nm);
    let mut groups: Vec<LayoutGroup> = Vec::new();
    if has_none {
        let indices = collect_schema_indices(nodes, &None);
        let label = String::from_str("public");
        proof {
            reveal_strlit("public");
            reveal_strlit("schema_");
            assert(label@ =~= seq!['p', 'u', 'b', 'l', 'i', 'c']);
            assert("schema_"@ =~= seq!['s', 'c', 'h', 'e', 'm', 'a', '_']);
        }
        let group = make_group("schema_", 0, label, indices);
        groups.push(group);
        proof {
            assert(keys[0] == None::<Seq<char>>);
            assert(group.model() == target[0]);
        }
    }
    let offset: usize = if has_none { 1 } else { 0 };
    proof {
        assert(groups_model(groups@) =~= target.subrange(0, offset as int));
        assert(keys.len() == offset + names_m.len());
        assert forall|q: int| 0 <= q < names_m.len() implies #[trigger] keys[offset + q] == Some(names_m[q]) by {
            assert(in_text_order(schema_names(nm)).map_values(|s: Seq<char>| Some(s))[q] == Some(names_m[q]));
        }
    }
    for k in 0..names.len()
        invariant
            nm == nodes_model(nodes@),
            names_m == strings_model(names@),
            keys == schema_group_keys(nm),
            target == schema_groups(nm),
            offset <= 1,
            keys.len() == offset + names_m.len(),
            forall|q: int| 0 <= q < names_m.len() ==> #[trigger] keys[offset + q] == Some(names_m[q]),
            groups_model(groups@) == target.subrange(0, offset + k),
    {
        let key = Some(names[k].clone());
        let indices = collect_schema_indices(nodes, &key);
        proof {
            reveal_strlit("schema_");
            assert("schema_"@ =~= seq!['s', 'c', 'h', 'e', 'm', 'a', '_']);
            assert(names_m[k as int] == names@[k as int]@);
            assert(keys[offset + k] == Some(names_m[k as int]));
        }
        let group = make_group("schema_", offset + k, names[k].clone(), indices);
        let ghost prev = groups@;
        groups.push(group);
        proof {
            assert(groups_model(groups@) =~= groups_model(prev).push(group.model()));
            assert(group.model() == target[offset + k]);
            assert(target.subrange(0, offset + k + 1) =~= target.subrange(0, offset + k).push(target[offset + k]));
        }
    }
    proof {
        assert(target.subrange(0, target.len() as int) =~= target);
    }
    groups
}

} // verus!

verus! {

/// Group nodes by table name prefix.
fn group_by_prefix(nodes: &Vec<LayoutNode>) -> (groups: Vec<LayoutGroup>)
    ensures
        groups_model(groups@) == prefix_groups(nodes_model(nodes@)),
{
    let ghost nm = nodes_model(nodes@);
    let mut node_prefixes: Vec<String> = Vec::new();
    let mut keys: Vec<String> = Vec::new();
    proof {
        assert(strings_model(keys@).to_set() =~= prefixes(nm.subrange(0, 0)));
    }
    for i in 0..nodes.len()
        invariant
            nm == nodes_model(nodes@),
            node_prefixes@.len() == i,
            forall|q: int| 0 <= q < i ==> (#[trigger] node_prefixes@[q])@ == prefix_of(nm[q].table_name),
            sorted_texts(strings_model(keys@)),
            strings_model(keys@).to_set() == prefixes(nm.subrange(0, i as int)),
    {
        let ghost pre = nm.subrange(0, i as int);
        let ghost post = nm.subrange(0, i + 1);
        proof {
            assert(nm[i as int] == nodes@[i as int].model());
        }
        let prefix = extract_prefix(nodes[i].table_name.as_str());
        node_prefixes.push(prefix.clone());
        insert_text_sorted(&mut keys, prefix);
        proof {
            assert(post[i as int] == nm[i as int]);
            assert(prefixes(post) =~= prefixes(pre).insert(prefix_of(nm[i as int].table_name))) by {
                assert forall|x: Seq<char>| prefixes(post).contains(x) implies prefixes(pre).insert(prefix_of(nm[i as int].table_name)).contains(x) by {
                    let q = choose|q: int| 0 <= q < post.len() && prefix_of(#[trigger] post[q].table_name) == x;
                    if q < i {
                        assert(pre[q] == post[q]);
                    }
                }
                assert forall|x: Seq<char>| prefixes(pre).insert(prefix_of(nm[i as int].table_name)).contains(x) implies prefixes(post).contains(x) by {
                    if x == prefix_of(nm[i as int].table_name) {
                        assert(prefix_of(post[i as int].table_name) == x);
                    } else {
                        let q = choose|q: int| 0 <= q < pre.len() && prefix_of(#[trigger] pre[q].table_name) == x;
                        assert(post[q] == pre[q]);
                        assert(prefix_of(post[q].table_name) == x);
                    }
                }
            }
        }
    }
    let ghost keys_m = strings_model(keys@);
    proof {
        assert(nm.subrange(0, nm.len() as int) =~= nm);
        let chosen = in_text_order(prefixes(nm));
        assert(sorted_texts(chosen) && chosen.to_set() == prefixes(nm));
        crate::text::lemma_sorted_texts_unique(chosen, keys_m);
    }
    let ghost target = prefix_groups(nm);
    let mut groups: Vec<LayoutGroup> = Vec::new();
    for k in 0..keys.len()
        invariant
            nm == nodes_model(nodes@),
            keys_m == strings_model(keys@),
            keys_m == in_text_order(prefixes(nm)),
            target == prefix_groups(nm),
            node_prefixes@.len() == nodes@.len(),
            forall|q: int| 0 <= q < nodes@.len() ==> (#[trigger] node_prefixes@[q])@ == prefix_of(nm[q].table_name),
            groups_model(groups@) == target.subrange(0, k as int),
    {
        let mut indices: Vec<usize> = Vec::new();
        for i in 0..nodes.len()
            invariant
                nm == nodes_model(nodes@),
                k < keys@.len(),
                keys_m == strings_model(keys@),
                node_prefixes@.len() == nodes@.len(),
                forall|q: int| 0 <= q < nodes@.len() ==> (#[trigger] node_prefixes@[q])@ == prefix_of(nm[q].table_name),
                indices@ == indices_with_prefix(nm.subrange(0, i as int), keys_m[k as int]),
        {
            proof {
                assert(nm.subrange(0, i + 1).drop_last() =~= nm.subrange(0, i as int));
                assert(nm.subrange(0, i + 1).last() == nm[i as int]);
                assert(keys_m[k as int] == keys@[k as int]@);
            }
            if node_prefixes[i] == keys[k] {
                indices.push(i);
            }
        }
        proof {
            reveal_strlit("prefix_");
            assert("prefix_"@ =~= seq!['p', 'r', 'e', 'f', 'i', 'x', '_']);
            assert(nm.subrange(0, nm.len() as int) =~= nm);
            assert(keys_m[k as int] == keys@[k as int]@);
        }
        let group = make_group("prefix_", k, keys[k].clone(), indices);
        let ghost prev = groups@;
        groups.push(group);
        proof {
            assert(groups_model(groups@) =~= groups_model(prev).push(group.model()));
            assert(group.model() == target[k as int]);
            assert(target.subrange(0, k + 1) =~= target.subrange(0, k as int).push(target[k as int]));
        }
    }
    proof {
        assert(target.subrange(0, target.len() as int) =~= target);
    }
    groups
}

/// The groups of the nodes under a grouping strategy.
pub open spec fn grouped(nodes: Seq<NodeModel>, strategy: GroupingStrategy) -> Seq<GroupModel> {
    match strategy {
        GroupingStrategy::Ungrouped => Seq::empty(),
        GroupingStrategy::BySchema => schema_groups(nodes),
        GroupingStrategy::ByPrefix => prefix_groups(nodes),
    }
}

/// Build groups based on the grouping strategy.
fn build_groups(nodes: &Vec<LayoutNode>, strategy: GroupingStrategy) -> (groups: Vec<LayoutGroup>)
    ensures
        groups_model(groups@) == grouped(nodes_model(nodes@), strategy),
{
    match strategy {
        GroupingStrategy::Ungrouped => {
            let groups: Vec<LayoutGroup> = Vec::new();
            proof {
                assert(groups_model(groups@) =~= Seq::<GroupModel>::empty());
            }
            groups
        },
        GroupingStrategy::BySchema => group_by_schema(nodes),
        GroupingStrategy::ByPrefix => group_by_prefix(nodes),
    }
}

} // verus!

verus! {

/// Request to build a layout graph from a schema.
#[derive(Debug)]
pub struct LayoutRequest {
    /// Filter specification for including/excluding tables.
    pub filter: FilterSpec,
    /// Optional focus specification.
    pub focus: Option<FocusSpec>,
    /// Grouping specification.
    pub grouping: GroupingSpec,
    /// Whether to collapse join tables into many-to-many edges.
    pub collapse_join_tables: bool,
}

impl Default for LayoutRequest {
    fn default() -> (r: Self)
        ensures
            r.filter.include_patterns@.len() == 0,
            r.filter.exclude_patterns@.len() == 0,
            r.focus is None,
            r.grouping.strategy == GroupingStrategy::Ungrouped,
            !r.collapse_join_tables,
    {
        LayoutRequest {
            filter: FilterSpec { include_patterns: Vec::new(), exclude_patterns: Vec::new() },
            focus: None,
            grouping: GroupingSpec { strategy: GroupingStrategy::Ungrouped },
            collapse_join_tables: false,
        }
    }
}

/// The last group (by position) that lists node `i`, among the first `k`.
pub open spec fn last_group_of(groups: Seq<GroupModel>, i: usize, k: int) -> Option<usize>
    decreases k,
{
    if k <= 0 || k > groups.len() {
        None
    } else if groups[k - 1].node_indices.contains(i) {
        Some((k - 1) as usize)
    } else {
        last_group_of(groups, i, k - 1)
    }
}

/// Nodes with their group recorded: the last group listing a node wins.
pub open spec fn with_groups(nodes: Seq<NodeModel>, groups: Seq<GroupModel>) -> Seq<NodeModel> {
    Seq::new(
        nodes.len(),
        |i: int|
            NodeModel {
                group_index: match last_group_of(groups, i as usize, groups.len() as int) {
                    Some(g) => Some(g),
                    None => nodes[i].group_index,
                },
                ..nodes[i]
            },
    )
}

/// The content of a layout graph.
pub struct GraphModel {
    /// The nodes' contents.
    pub nodes: Seq<NodeModel>,
    /// The edges' contents.
    pub edges: Seq<EdgeModel>,
    /// The groups' contents.
    pub groups: Seq<GroupModel>,
}

/// The kept tables, views and enums of a schema.
pub open spec fn kept_objects(schema: Schema, request: LayoutRequest) -> (Seq<Table>, Seq<SchemaView>, Seq<Enum>) {
    (
        schema.tables@.filter(|t: Table| keeps_table(request.filter, t)),
        schema.views@.filter(|v: SchemaView| keeps_view(request.filter, v)),
        schema.enums@.filter(|e: Enum| keeps_enum(request.filter, e)),
    )
}

/// The edges of the kept objects.
pub open spec fn base_edges(schema: Schema, request: LayoutRequest) -> Seq<EdgeModel> {
    let (tables, views, enums) = kept_objects(schema, request);
    schema_edges(tables, views, enums)
}

/// The nodes of the kept objects, with relationship counts and join-table
/// flags.
pub open spec fn flagged_nodes(schema: Schema, request: LayoutRequest) -> Seq<NodeModel> {
    let (tables, views, enums) = kept_objects(schema, request);
    let n0 = schema_nodes(tables, views, enums);
    let e0 = base_edges(schema, request);
    Seq::new(n0.len(), |i: int| with_join_flag(with_counts(n0[i], n0, e0, i as usize), e0))
}

/// Nodes after collapsing join tables, if the request asks for it.
pub open spec fn stage_nodes(schema: Schema, request: LayoutRequest) -> Seq<NodeModel> {
    if request.collapse_join_tables {
        collapsed_nodes(flagged_nodes(schema, request))
    } else {
        flagged_nodes(schema, request)
    }
}

/// Edges after collapsing join tables, if the request asks for it.
pub open spec fn stage_edges(schema: Schema, request: LayoutRequest) -> Seq<EdgeModel> {
    if request.collapse_join_tables {
        collapsed_edges(flagged_nodes(schema, request), base_edges(schema, request))
    } else {
        base_edges(schema, request)
    }
}

/// The graph a request builds from a schema: the kept objects' nodes and
/// edges, relationship counts, join-table flags, collapsed join tables if
/// asked for, groups, and each node's group.
pub open spec fn built_graph(schema: Schema, request: LayoutRequest) -> GraphModel {
    let nodes = stage_nodes(schema, request);
    let groups = grouped(nodes, request.grouping.strategy);
    GraphModel { nodes: with_groups(nodes, groups), edges: stage_edges(schema, request), groups }
}

impl LayoutGraph {
    /// The content of this graph.
    pub open spec fn model(&self) -> GraphModel {
        GraphModel { nodes: nodes_model(self.nodes@), edges: edges_model(self.edges@), groups: groups_model(self.groups@) }
    }

    /// The indices agree with the nodes: the index maps every id to the last
    /// node holding it, and the reverse index lists every node's id.
    pub open spec fn indexed(&self) -> bool {
        &&& forall|key: Seq<char>| #[trigger] self.node_index.lookup(key) == last_with_id(nodes_model(self.nodes@), key)
        &&& self.reverse_index@.len() == self.nodes@.len()
        &&& forall|i: int| 0 <= i < self.nodes@.len() ==> #[trigger] self.reverse_index@[i]@ == self.nodes@[i].id@
    }
}

/// Builder for constructing layout graphs from schemas.
#[derive(Debug)]
pub struct LayoutGraphBuilder {
    /// The request the graph is built for.
    pub request: LayoutRequest,
}

impl LayoutGraphBuilder {
    /// Create a new builder with the default request.
    pub fn new() -> (b: Self)
        ensures
            b.request.filter.include_patterns@.len() == 0,
            b.request.filter.exclude_patterns@.len() == 0,
            b.request.focus is None,
            b.request.grouping.strategy == GroupingStrategy::Ungrouped,
            !b.request.collapse_join_tables,
    {
        LayoutGraphBuilder { request: LayoutRequest::default() }
    }

    /// Set the filter specification.
    pub fn filter(self, filter: FilterSpec) -> (b: Self)
        ensures
            b.request == (LayoutRequest { filter, ..self.request }),
    {
        let mut b = self;
        b.request.filter = filter;
        b
    }

    /// Set the focus specification.
    pub fn focus(self, focus: Option<FocusSpec>) -> (b: Self)
        ensures
            b.request == (LayoutRequest { focus, ..self.request }),
    {
        let mut b = self;
        b.request.focus = focus;
        b
    }

    /// Set the grouping specification.
    pub fn grouping(self, grouping: GroupingSpec) -> (b: Self)
        ensures
            b.request == (LayoutRequest { grouping, ..self.request }),
    {
        let mut b = self;
        b.request.grouping = grouping;
        b
    }

    /// Set whether to collapse join tables.
    pub fn collapse_join_tables(self, collapse: bool) -> (b: Self)
        ensures
            b.request == (LayoutRequest { collapse_join_tables: collapse, ..self.request }),
    {
        let mut b = self;
        b.request.collapse_join_tables = collapse;
        b
    }

    /// Set the full request.
    pub fn request(self, request: LayoutRequest) -> (b: Self)
        ensures
            b.request == request,
    {
        LayoutGraphBuilder { request }
    }
}

} // verus!

verus! {

/// Records in each node the last group that lists it.
fn assign_group_indices(nodes: &mut Vec<LayoutNode>, groups: &Vec<LayoutGroup>)
    ensures
        nodes_model(final(nodes)@) == with_groups(nodes_model(old(nodes)@), groups_model(groups@)),
{
    let ghost start = nodes_model(nodes@);
    let ghost gm = groups_model(groups@);
    let n = nodes.len();
    for g in 0..groups.len()
        invariant
            gm == groups_model(groups@),
            n == nodes@.len(),
            start.len() == n,
            forall|i: int|
                0 <= i < n ==> (#[trigger] nodes@[i]).model() == (NodeModel {
                    group_index: match last_group_of(gm, i as usize, g as int) {
                        Some(x) => Some(x),
                        None => start[i].group_index,
                    },
                    ..start[i]
                }),
    {
        let ghost mid = nodes_model(nodes@);
        let group = &groups[g];
        proof {
            assert(gm[g as int] == group.model());
        }
        for p in 0..group.node_indices.len()
            invariant
                n == nodes@.len(),
                mid.len() == n,
                forall|i: int|
                    0 <= i < n ==> (#[trigger] nodes@[i]).model() == (NodeModel {
                        group_index: if group.node_indices@.subrange(0, p as int).contains(i as usize) {
                            Some(g)
                        } else {
                            mid[i].group_index
                        },
                        ..mid[i]
                    }),
        {
            let idx = group.node_indices[p];
            proof {
                let longer = group.node_indices@.subrange(0, p + 1);
                let shorter = group.node_indices@.subrange(0, p as int);
                assert forall|i: usize| #[trigger] longer.contains(i) == (shorter.contains(i) || i == idx) by {
                    if longer.contains(i) {
                        let q = choose|q: int| 0 <= q < longer.len() && #[trigger] longer[q] == i;
                        if q < p {
                            assert(shorter[q] == i);
                        }
                    }
                    if shorter.contains(i) {
                        let q = choose|q: int| 0 <= q < shorter.len() && #[trigger] shorter[q] == i;
                        assert(longer[q] == i);
                    }
                    if i == idx {
                        assert(longer[p as int] == i);
                    }
                }
            }
            if idx < nodes.len() {
                let mut node = nodes[idx].clone();
                node.group_index = Some(g);
                proof {
                    assert(node.model() =~= (NodeModel { group_index: Some(g), ..nodes@[idx as int].model() }));
                }
                nodes.set(idx, node);
            }
        }
        proof {
            assert(group.node_indices@.subrange(0, group.node_indices@.len() as int) =~= group.node_indices@);
        }
    }
    proof {
        assert(nodes_model(nodes@) =~= with_groups(start, gm));
    }
}

impl LayoutGraphBuilder {
    /// Build the layout graph from a schema.
    pub fn build(&self, schema: &Schema) -> (graph: LayoutGraph)
        ensures
            graph.model() == built_graph(*schema, self.request),
            graph.indexed(),
            graph.indices_in_range(),
    {
        let request = &self.request;
        // Step 1: filter schema objects.
        let kept_tables = filter_tables(&request.filter, &schema.tables);
        let kept_views = filter_views(&request.filter, &schema.views);
        let kept_enums = filter_enums(&request.filter, &schema.enums);
        // Step 2: nodes and edges.
        let (mut nodes, mut edges) = build_nodes_and_edges(
            &schema.tables,
            &kept_tables,
            &schema.views,
            &kept_views,
            &schema.enums,
            &kept_enums,
        );
        let ghost n0 = nodes_model(nodes@);
        let ghost e0 = edges_model(edges@);
        let edge_count = edges.len();
        proof {
            assert(edge_count == edges@.len());
            assert(e0 == base_edges(*schema, *request));
            assert forall|i: int| 0 <= i < nodes@.len() implies #[trigger] nodes@[i].inbound_count + edges@.len() <= usize::MAX
                && nodes@[i].outbound_count + edges@.len() <= usize::MAX by {
                assert(n0[i] == nodes@[i].model());
                let (t, v, e) = kept_objects(*schema, *request);
                assert(n0 == schema_nodes(t, v, e));
                lemma_schema_nodes_fresh(t, v, e);
                assert(schema_nodes(t, v, e)[i].inbound_count == 0);
                assert(nodes@[i].inbound_count == 0 && nodes@[i].outbound_count == 0);
            }
        }
        // Step 3: relationship counts.
        compute_relationship_counts(&mut nodes, &edges);
        // Step 4: join-table candidates.
        let ghost n1 = nodes@;
        mark_join_table_candidates(&mut nodes, &edges);
        proof {
            assert(nodes_model(nodes@) =~= flagged_nodes(*schema, *request)) by {
                assert forall|i: int| 0 <= i < nodes@.len() implies #[trigger] nodes_model(nodes@)[i] == flagged_nodes(*schema, *request)[i] by {
                    assert(nodes@[i].model() == with_join_flag(n1[i].model(), e0));
                    assert(n1[i].model() == with_counts(n0[i], n0, e0, i as usize));
                }
            }
        }
        // Step 5: collapse join tables if requested.
        if request.collapse_join_tables {
            do_collapse_join_tables(&mut nodes, &mut edges);
        }
        proof {
            assert(nodes_model(nodes@) == stage_nodes(*schema, *request));
            assert(edges_model(edges@) == stage_edges(*schema, *request));
        }
        // Step 6: groups.
        let groups = build_groups(&nodes, request.grouping.strategy);
        // Step 7: indices.
        let node_index = index_nodes(&nodes);
        let reverse_index = ids_of(&nodes);
        // Step 8: group index of each node.
        let ghost before_groups = nodes@;
        assign_group_indices(&mut nodes, &groups);
        let graph = LayoutGraph { nodes, edges, groups, node_index, reverse_index };
        proof {
            let after = nodes_model(graph.nodes@);
            let prior = nodes_model(before_groups);
            assert(after == with_groups(prior, groups_model(graph.groups@)));
            assert(after.len() == prior.len());
            assert(graph.nodes@.len() == before_groups.len());
            assert forall|i: int| 0 <= i < after.len() implies #[trigger] after[i].id == prior[i].id by {
                assert(after[i] == with_groups(prior, groups_model(graph.groups@))[i]);
            }
            assert forall|i: int| 0 <= i < graph.nodes@.len() implies #[trigger] graph.nodes@[i].id@ == before_groups[i].id@ by {
                assert(after[i] == graph.nodes@[i].model());
                assert(prior[i] == before_groups[i].model());
                assert(after[i].id == prior[i].id);
            }
            assert forall|key: Seq<char>| #[trigger] last_with_id(prior, key) == last_with_id(after, key) by {
                lemma_last_with_id_same_ids(prior, after, key);
            }
        }
        graph
    }
}

} // verus!
