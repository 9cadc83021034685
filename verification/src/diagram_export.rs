//! Text diagram formats: Mermaid ER, D2 and Graphviz DOT documents of a layout graph.

use vstd::prelude::*;
use vstd::string::StringExecFns;

use crate::diagram_names::{
    blank, display_name, export_id, fallback_export_name, fallback_name, is_blank, mermaid_column_names,
    mermaid_token_type, node_display_name, node_export_id, strs_model, token_type, unique_names,
    column_bases,
};
use crate::graph::{
    edges_model, lemma_index_of_in_range, nodes_model, strings_model, ColumnModel, EdgeModel, LayoutEdge,
    LayoutGraph, LayoutNode, NodeModel,
};
use crate::text::{chars_of, push_char};

verus! {

/// How Mermaid writes a character inside a quoted name or label.
pub open spec fn mermaid_char(c: char) -> Seq<char> {
    if c == '\\' {
        seq!['\\', '\\']
    } else if c == '"' {
        seq!['\\', '"']
    } else if c == '\n' {
        seq!['\\', 'n']
    } else if c == '\r' {
        seq!['\\', 'r']
    } else if c == '[' || c == ']' || c == '{' || c == '}' || c == '(' || c == ')' {
        seq!['\\', c]
    } else {
        seq![c]
    }
}

/// How DOT writes a character inside a quoted string.
pub open spec fn dot_char(c: char) -> Seq<char> {
    if c == '\\' {
        seq!['\\', '\\']
    } else if c == '"' {
        seq!['\\', '"']
    } else if c == '\n' {
        seq!['\\', 'n']
    } else if c == '\r' {
        seq!['\\', 'r']
    } else {
        seq![c]
    }
}

/// How D2 writes a character inside a quoted string.
pub open spec fn d2_char(c: char) -> Seq<char> {
    if c == '\\' {
        seq!['\\', '\\']
    } else if c == '"' {
        seq!['\\', '"']
    } else if c == '\n' {
        seq!['\\', 'n']
    } else if c == '\r' {
        seq!['\\', 'r']
    } else if c == '<' || c == '>' || c == '{' || c == '}' || c == '|' {
        seq!['\\', c]
    } else {
        seq![c]
    }
}

/// The escape style of a format.
#[derive(Clone, Copy, PartialEq, Eq, Structural)]
pub enum EscapeStyle {
    /// Mermaid quoted names and labels.
    Mermaid,
    /// Graphviz DOT quoted strings.
    Dot,
    /// D2 quoted strings.
    D2,
}

/// How a format writes one character.
pub open spec fn style_char(style: EscapeStyle, c: char) -> Seq<char> {
    match style {
        EscapeStyle::Mermaid => mermaid_char(c),
        EscapeStyle::Dot => dot_char(c),
        EscapeStyle::D2 => d2_char(c),
    }
}

/// `s` with every character written as the format writes it.
pub open spec fn escaped(style: EscapeStyle, s: Seq<char>) -> Seq<char>
    decreases s.len(),
{
    if s.len() == 0 {
        Seq::empty()
    } else {
        escaped(style, s.drop_last()) + style_char(style, s.last())
    }
}

/// Escaping writes the first character first.
proof fn lemma_escaped_front(style: EscapeStyle, s: Seq<char>)
    requires
        s.len() > 0,
    ensures
        escaped(style, s) == style_char(style, s[0]) + escaped(style, s.drop_first()),
    decreases s.len(),
{
    if s.len() == 1 {
        assert(s.drop_first() =~= Seq::<char>::empty());
        assert(s.drop_last() =~= Seq::<char>::empty());
        assert(escaped(style, s.drop_first()) =~= Seq::<char>::empty());
        assert(escaped(style, s) =~= style_char(style, s[0]));
    } else {
        lemma_escaped_front(style, s.drop_last());
        assert(s.drop_last().drop_first() =~= s.drop_first().drop_last());
        assert(s.drop_first().last() == s.last());
        assert(escaped(style, s.drop_first()) == escaped(style, s.drop_first().drop_last()) + style_char(
            style,
            s.last(),
        ));
        assert(escaped(style, s) =~= style_char(style, s[0]) + escaped(style, s.drop_first()));
    }
}

/// D2 escaping loses nothing: two strings with the same escaped form are
/// the same string.
pub proof fn lemma_d2_escape_injective(a: Seq<char>, b: Seq<char>)
    requires
        escaped(EscapeStyle::D2, a) == escaped(EscapeStyle::D2, b),
    ensures
        a == b,
    decreases a.len(),
{
    if a.len() == 0 || b.len() == 0 {
        if a.len() > 0 {
            lemma_escaped_front(EscapeStyle::D2, a);
        }
        if b.len() > 0 {
            lemma_escaped_front(EscapeStyle::D2, b);
        }
        assert(a =~= b);
    } else {
        lemma_escaped_front(EscapeStyle::D2, a);
        lemma_escaped_front(EscapeStyle::D2, b);
        let e = escaped(EscapeStyle::D2, a);
        let ea = d2_char(a[0]);
        let eb = d2_char(b[0]);
        assert(ea[0] == e[0] && eb[0] == e[0]);
        if ea.len() == 2 && eb.len() == 2 {
            assert(ea[1] == e[1] && eb[1] == e[1]);
        }
        assert(a[0] == b[0]);
        let ra = escaped(EscapeStyle::D2, a.drop_first());
        let rb = escaped(EscapeStyle::D2, b.drop_first());
        assert(ra =~= e.subrange(ea.len() as int, e.len() as int));
        assert(rb =~= e.subrange(ea.len() as int, e.len() as int));
        lemma_d2_escape_injective(a.drop_first(), b.drop_first());
        assert(a =~= seq![a[0]] + a.drop_first());
        assert(b =~= seq![b[0]] + b.drop_first());
    }
}

/// A D2-escaped string holds no line feed and no carriage return.
pub proof fn lemma_d2_escape_single_line(s: Seq<char>)
    ensures
        forall|i: int|
            0 <= i < escaped(EscapeStyle::D2, s).len() ==> #[trigger] escaped(EscapeStyle::D2, s)[i] != '\n'
                && escaped(EscapeStyle::D2, s)[i] != '\r',
    decreases s.len(),
{
    if s.len() > 0 {
        lemma_d2_escape_single_line(s.drop_last());
        let p = escaped(EscapeStyle::D2, s.drop_last());
        let c = d2_char(s.last());
        assert forall|i: int| 0 <= i < escaped(EscapeStyle::D2, s).len() implies #[trigger] escaped(
            EscapeStyle::D2,
            s,
        )[i] != '\n' && escaped(EscapeStyle::D2, s)[i] != '\r' by {
            if i >= p.len() {
                assert(escaped(EscapeStyle::D2, s)[i] == c[i - p.len()]);
            } else {
                assert(escaped(EscapeStyle::D2, s)[i] == p[i]);
            }
        }
    }
}

/// The parts one after another.
pub open spec fn lines(parts: Seq<Seq<char>>) -> Seq<char>
    decreases parts.len(),
{
    if parts.len() == 0 {
        Seq::empty()
    } else {
        lines(parts.drop_last()) + parts.last()
    }
}

/// The parts with `sep` between each two.
pub open spec fn joined(parts: Seq<Seq<char>>, sep: Seq<char>) -> Seq<char>
    decreases parts.len(),
{
    if parts.len() == 0 {
        Seq::empty()
    } else if parts.len() == 1 {
        parts[0]
    } else {
        joined(parts.drop_last(), sep) + sep + parts.last()
    }
}

/// The label of an edge: the join table it stands for, then the foreign key
/// name with its columns, or the columns alone, or `fk`.
pub open spec fn edge_label(e: EdgeModel) -> Seq<char> {
    let via = match e.collapsed_join_table {
        Some(join) => if e.is_collapsed_join {
            "via "@ + join.1 + ": "@
        } else {
            Seq::empty()
        },
        None => Seq::empty(),
    };
    let from = joined(e.from_columns, ", "@);
    let to = joined(e.to_columns, ", "@);
    via + match e.name {
        Some(name) => if e.from_columns.len() > 0 {
            name + " ("@ + from + " -> "@ + to + ")"@
        } else {
            name
        },
        None => if e.from_columns.len() == 0 && e.to_columns.len() == 0 {
            "fk"@
        } else {
            from + " → "@ + to
        },
    }
}

/// The first node, from position `k` on, whose id, table name or label is `id`.
pub open spec fn first_node_called(nodes: Seq<LayoutNode>, id: Seq<char>, k: int) -> Option<usize>
    decreases nodes.len() - k,
{
    if k < 0 || k >= nodes.len() {
        None
    } else if nodes[k].id@ == id || nodes[k].table_name@ == id || nodes[k].label@ == id {
        Some(k as usize)
    } else {
        first_node_called(nodes, id, k + 1)
    }
}

/// The node an edge end names: the node indexed under it, else the first
/// node with that id, table name or label.
pub open spec fn export_index(g: LayoutGraph, id: Seq<char>) -> Option<usize> {
    match g.index_of(id) {
        Some(i) => Some(i),
        None => first_node_called(g.nodes@, id, 0),
    }
}

/// The name a diagram gives an edge end: the name of the node it designates;
/// the raw id when it designates none; `prefix_N` (`N` one past the number
/// of nodes) when it is blank.
pub open spec fn endpoint_name(g: LayoutGraph, raw: Seq<char>, names: Seq<Seq<char>>, prefix: Seq<char>) -> Seq<
    char,
> {
    if blank(raw) {
        fallback_name(Seq::empty(), prefix, names.len())
    } else {
        match export_index(g, raw) {
            Some(i) => names[i as int],
            None => fallback_name(seq![raw], prefix, names.len()),
        }
    }
}

/// A quoted Mermaid entity name.
pub open spec fn quoted_entity(label: Seq<char>, prefix: Seq<char>, index: nat) -> Seq<char> {
    "\""@ + escaped(EscapeStyle::Mermaid, fallback_name(seq![label], prefix, index)) + "\""@
}

/// The Mermaid entity names of the nodes.
pub open spec fn mermaid_names(nodes: Seq<NodeModel>) -> Seq<Seq<char>> {
    Seq::new(nodes.len(), |i: int| quoted_entity(display_name(nodes[i], i as nat), "node"@, i as nat))
}

/// The Mermaid attribute line of a column.
pub open spec fn column_line(c: ColumnModel, name: Seq<char>) -> Seq<char> {
    "    "@ + token_type(c.data_type) + " "@ + name + (if c.is_primary_key {
        " PK"@
    } else {
        Seq::empty()
    }) + seq!['\n']
}

/// The Mermaid block of a node.
pub open spec fn mermaid_block(n: NodeModel, name: Seq<char>) -> Seq<char> {
    let names = unique_names(column_bases(n));
    "  "@ + name + " {"@ + seq!['\n'] + lines(
        Seq::new(n.columns.len(), |j: int| column_line(n.columns[j], names[j])),
    ) + "  }"@ + seq!['\n']
}

/// The Mermaid relationship line of an edge.
pub open spec fn mermaid_edge_line(g: LayoutGraph, e: EdgeModel, names: Seq<Seq<char>>) -> Seq<char> {
    "  "@ + endpoint_name(g, e.to, names, "parent"@) + " ||--o{ "@ + endpoint_name(g, e.from, names, "child"@)
        + " : \""@ + escaped(EscapeStyle::Mermaid, edge_label(e)) + "\""@ + seq!['\n']
}

/// The Mermaid `erDiagram` document of a graph.
pub open spec fn mermaid_document(g: LayoutGraph) -> Seq<char> {
    let nodes = nodes_model(g.nodes@);
    let edges = edges_model(g.edges@);
    let names = mermaid_names(nodes);
    "erDiagram"@ + seq!['\n'] + lines(Seq::new(nodes.len(), |i: int| mermaid_block(nodes[i], names[i]))) + lines(
        Seq::new(edges.len(), |k: int| mermaid_edge_line(g, edges[k], names)),
    )
}

/// The identifiers D2 and DOT give the nodes.
pub open spec fn export_ids(nodes: Seq<NodeModel>) -> Seq<Seq<char>> {
    Seq::new(nodes.len(), |i: int| fallback_name(seq![export_id(nodes[i], i as nat)], "node"@, i as nat))
}

/// The labels D2 and DOT give the nodes.
pub open spec fn export_labels(nodes: Seq<NodeModel>) -> Seq<Seq<char>> {
    Seq::new(nodes.len(), |i: int| fallback_name(seq![display_name(nodes[i], i as nat)], "node"@, i as nat))
}

/// The D2 line of a node.
pub open spec fn d2_node_line(id: Seq<char>, label: Seq<char>) -> Seq<char> {
    "\""@ + escaped(EscapeStyle::D2, id) + "\": { label: \""@ + escaped(EscapeStyle::D2, label) + "\" }"@ + seq!['\n']
}

/// The D2 line of an edge.
pub open spec fn d2_edge_line(g: LayoutGraph, e: EdgeModel, ids: Seq<Seq<char>>) -> Seq<char> {
    "\""@ + escaped(EscapeStyle::D2, endpoint_name(g, e.from, ids, "from"@)) + "\" -> \""@ + escaped(
        EscapeStyle::D2,
        endpoint_name(g, e.to, ids, "to"@),
    ) + "\": \""@ + escaped(EscapeStyle::D2, edge_label(e)) + "\""@ + seq!['\n']
}

/// The D2 document of a graph.
pub open spec fn d2_document(g: LayoutGraph) -> Seq<char> {
    let nodes = nodes_model(g.nodes@);
    let edges = edges_model(g.edges@);
    let ids = export_ids(nodes);
    let labels = export_labels(nodes);
    lines(Seq::new(nodes.len(), |i: int| d2_node_line(ids[i], labels[i]))) + lines(
        Seq::new(edges.len(), |k: int| d2_edge_line(g, edges[k], ids)),
    )
}

/// The DOT line of a node.
pub open spec fn dot_node_line(id: Seq<char>, label: Seq<char>) -> Seq<char> {
    "  \""@ + escaped(EscapeStyle::Dot, id) + "\" [label=\""@ + escaped(EscapeStyle::Dot, label) + "\"];"@ + seq!['\n']
}

/// The DOT line of an edge.
pub open spec fn dot_edge_line(g: LayoutGraph, e: EdgeModel, ids: Seq<Seq<char>>) -> Seq<char> {
    "  \""@ + escaped(EscapeStyle::Dot, endpoint_name(g, e.from, ids, "from"@)) + "\" -> \""@ + escaped(
        EscapeStyle::Dot,
        endpoint_name(g, e.to, ids, "to"@),
    ) + "\" [label=\""@ + escaped(EscapeStyle::Dot, edge_label(e)) + "\"];"@ + seq!['\n']
}

/// The opening lines of a DOT document.
pub open spec fn dot_header() -> Seq<char> {
    "digraph erd {"@ + seq!['\n'] + "  graph [rankdir=BT];"@ + seq!['\n'] + "  node [shape=box, fontname=\"Helvetica\"];"@
        + seq!['\n'] + "  edge [fontname=\"Helvetica\"];"@ + seq!['\n']
}

/// The DOT `digraph` document of a graph.
pub open spec fn dot_document(g: LayoutGraph) -> Seq<char> {
    let nodes = nodes_model(g.nodes@);
    let edges = edges_model(g.edges@);
    let ids = export_ids(nodes);
    let labels = export_labels(nodes);
    dot_header() + lines(Seq::new(nodes.len(), |i: int| dot_node_line(ids[i], labels[i]))) + lines(
        Seq::new(edges.len(), |k: int| dot_edge_line(g, edges[k], ids)),
    ) + "}"@ + seq!['\n']
}

/// Lines over a longer prefix add the next part.
proof fn lemma_lines_step(parts: Seq<Seq<char>>, i: int)
    requires
        0 <= i < parts.len(),
    ensures
        lines(parts.subrange(0, i + 1)) == lines(parts.subrange(0, i)) + parts[i],
{
    assert(parts.subrange(0, i + 1).drop_last() =~= parts.subrange(0, i));
}

/// Escaping a longer prefix adds the next character's escape.
proof fn lemma_escaped_step(style: EscapeStyle, s: Seq<char>, i: int)
    requires
        0 <= i < s.len(),
    ensures
        escaped(style, s.subrange(0, i + 1)) == escaped(style, s.subrange(0, i)) + style_char(style, s[i]),
{
    assert(s.subrange(0, i + 1).drop_last() =~= s.subrange(0, i));
}

/// Appends a character as the format writes it.
fn push_escaped(out: &mut String, c: char, style: EscapeStyle)
    ensures
        final(out)@ == old(out)@ + style_char(style, c),
{
    let ghost start = out@;
    if c == '\\' {
        push_char(out, '\\');
        push_char(out, '\\');
    } else if c == '"' {
        push_char(out, '\\');
        push_char(out, '"');
    } else if c == '\n' {
        push_char(out, '\\');
        push_char(out, 'n');
    } else if c == '\r' {
        push_char(out, '\\');
        push_char(out, 'r');
    } else {
        let special = match style {
            EscapeStyle::Mermaid => c == '[' || c == ']' || c == '{' || c == '}' || c == '(' || c == ')',
            EscapeStyle::Dot => false,
            EscapeStyle::D2 => c == '<' || c == '>' || c == '{' || c == '}' || c == '|',
        };
        if special {
            push_char(out, '\\');
        }
        push_char(out, c);
    }
    proof {
        assert(out@ =~= start + style_char(style, c));
    }
}

/// `text` with every character written as the format writes it.
fn escape_with(text: &str, style: EscapeStyle) -> (out: String)
    ensures
        out@ == escaped(style, text@),
{
    let chars = chars_of(text);
    let mut out = String::new();
    for i in 0..chars.len()
        invariant
            chars@ == text@,
            out@ == escaped(style, text@.subrange(0, i as int)),
    {
        proof {
            lemma_escaped_step(style, text@, i as int);
        }
        push_escaped(&mut out, chars[i], style);
    }
    proof {
        assert(text@.subrange(0, text@.len() as int) =~= text@);
    }
    out
}

/// Escapes text for a quoted Mermaid name or label.
pub fn mermaid_escape_text(text: &str) -> (out: String)
    ensures
        out@ == escaped(EscapeStyle::Mermaid, text@),
{
    escape_with(text, EscapeStyle::Mermaid)
}

/// Escapes an edge label for Mermaid.
pub fn mermaid_escape_edge_label(label: &str) -> (out: String)
    ensures
        out@ == escaped(EscapeStyle::Mermaid, label@),
{
    mermaid_escape_text(label)
}

/// Escapes text for a quoted DOT string.
pub fn dot_escape(s: &str) -> (out: String)
    ensures
        out@ == escaped(EscapeStyle::Dot, s@),
{
    escape_with(s, EscapeStyle::Dot)
}

/// Escapes text for a quoted D2 string.
pub fn d2_escape(s: &str) -> (out: String)
    ensures
        out@ == escaped(EscapeStyle::D2, s@),
{
    escape_with(s, EscapeStyle::D2)
}

/// A quoted Mermaid entity name for `label` (or `prefix_N` when it is blank).
pub fn mermaid_quote_entity(label: &str, fallback_prefix: &str, index: usize) -> (out: String)
    requires
        index < usize::MAX,
    ensures
        out@ == quoted_entity(label@, fallback_prefix@, index as nat),
{
    let values = [label];
    let name = fallback_export_name(&values, fallback_prefix, index);
    proof {
        assert(strs_model(values@) =~= seq![label@]);
    }
    let escaped_name = mermaid_escape_text(name.as_str());
    let mut out = String::from_str("\"");
    out.append(escaped_name.as_str());
    out.append("\"");
    out
}

/// The parts with `sep` between each two.
fn join_strings(parts: &Vec<String>, sep: &str) -> (out: String)
    ensures
        out@ == joined(strings_model(parts@), sep@),
{
    let ghost all = strings_model(parts@);
    let mut out = String::new();
    for i in 0..parts.len()
        invariant
            all == strings_model(parts@),
            out@ == joined(all.subrange(0, i as int), sep@),
    {
        let ghost before = out@;
        if i > 0 {
            out.append(sep);
        }
        out.append(parts[i].as_str());
        proof {
            assert(all.subrange(0, i + 1).drop_last() =~= all.subrange(0, i as int));
            if i == 0 {
                assert(joined(all.subrange(0, 1), sep@) == all.subrange(0, 1)[0]);
                assert(out@ =~= all[0]);
            } else {
                assert(out@ =~= before + sep@ + all[i as int]);
            }
        }
    }
    proof {
        assert(all.subrange(0, all.len() as int) =~= all);
    }
    out
}

/// The label of an edge.
pub fn format_edge_label(edge: &LayoutEdge) -> (out: String)
    ensures
        out@ == edge_label(edge.model()),
{
    let ghost e = edge.model();
    let mut out = String::new();
    if edge.is_collapsed_join {
        match &edge.collapsed_join_table {
            Some(j) => {
                out.append("via ");
                out.append(j.table_label.as_str());
                out.append(": ");
            },
            None => {},
        }
    }
    let ghost via = out@;
    let from = join_strings(&edge.from_columns, ", ");
    let to = join_strings(&edge.to_columns, ", ");
    match &edge.name {
        Some(name) => {
            out.append(name.as_str());
            if edge.from_columns.len() > 0 {
                out.append(" (");
                out.append(from.as_str());
                out.append(" -> ");
                out.append(to.as_str());
                out.append(")");
            }
        },
        None => {
            if edge.from_columns.len() == 0 && edge.to_columns.len() == 0 {
                out.append("fk");
            } else {
                out.append(from.as_str());
                out.append(" → ");
                out.append(to.as_str());
            }
        },
    }
    proof {
        assert(strings_model(edge.from_columns@).len() == edge.from_columns@.len());
        assert(strings_model(edge.to_columns@).len() == edge.to_columns@.len());
        assert(out@ =~= edge_label(e));
    }
    out
}

/// The node an edge end names.
pub fn node_index_by_id(graph: &LayoutGraph, table_id: &str) -> (r: Option<usize>)
    requires
        graph.indices_in_range(),
    ensures
        r == export_index(*graph, table_id@),
        r matches Some(i) ==> i < graph.nodes@.len(),
{
    proof {
        lemma_index_of_in_range(graph, table_id@);
    }
    match graph.node_index.get(table_id) {
        Some(i) => Some(i),
        None => {
            let wanted = table_id.to_owned();
            for i in 0..graph.nodes.len()
                invariant
                    wanted@ == table_id@,
                    graph.index_of(table_id@) is None,
                    first_node_called(graph.nodes@, table_id@, 0) == first_node_called(graph.nodes@, table_id@, i as int),
            {
                let node = &graph.nodes[i];
                if node.id == wanted || node.table_name == wanted || node.label == wanted {
                    proof {
                        assert(first_node_called(graph.nodes@, table_id@, i as int) == Some(i));
                    }
                    return Some(i);
                }
            }
            None
        },
    }
}

/// The name a diagram gives an edge end.
pub fn edge_endpoint_name(graph: &LayoutGraph, raw_id: &str, names: &Vec<String>, fallback_prefix: &str) -> (out: String)
    requires
        graph.indices_in_range(),
        names@.len() == graph.nodes@.len(),
        names@.len() < usize::MAX,
    ensures
        out@ == endpoint_name(*graph, raw_id@, strings_model(names@), fallback_prefix@),
{
    let count = names.len();
    if is_blank(raw_id) {
        let values: [&str; 0] = [];
        let out = fallback_export_name(&values, fallback_prefix, count);
        proof {
            assert(strs_model(values@) =~= Seq::<Seq<char>>::empty());
        }
        return out;
    }
    match node_index_by_id(graph, raw_id) {
        Some(index) => names[index].clone(),
        None => {
            let values = [raw_id];
            let out = fallback_export_name(&values, fallback_prefix, count);
            proof {
                assert(strs_model(values@) =~= seq![raw_id@]);
            }
            out
        },
    }
}

/// The Mermaid attribute line of a column.
fn mermaid_column_text(column: &crate::graph::LayoutColumn, name: &String) -> (out: String)
    ensures
        out@ == column_line(column.model(), name@),
{
    let token = mermaid_token_type(column.data_type.as_str());
    let mut out = String::from_str("    ");
    out.append(token.as_str());
    out.append(" ");
    out.append(name.as_str());
    if column.is_primary_key {
        out.append(" PK");
    }
    push_char(&mut out, '\n');
    proof {
        assert(out@ =~= column_line(column.model(), name@));
    }
    out
}

/// The Mermaid block of a node.
fn mermaid_node_block(node: &LayoutNode, name: &String) -> (out: String)
    requires
        node.columns@.len() < usize::MAX,
    ensures
        out@ == mermaid_block(node.model(), name@),
{
    let ghost n = node.model();
    let ghost col_names = unique_names(column_bases(n));
    let ghost parts = Seq::new(n.columns.len(), |j: int| column_line(n.columns[j], col_names[j]));
    let column_names = mermaid_column_names(node);
    proof {
        crate::diagram_names::lemma_unique_names_distinct(column_bases(n));
    }
    let mut body = String::new();
    for j in 0..node.columns.len()
        invariant
            n == node.model(),
            col_names == unique_names(column_bases(n)),
            strings_model(column_names@) == col_names,
            col_names.len() == node.columns@.len(),
            parts == Seq::new(n.columns.len(), |j: int| column_line(n.columns[j], col_names[j])),
            body@ == lines(parts.subrange(0, j as int)),
    {
        proof {
            lemma_lines_step(parts, j as int);
            assert(n.columns[j as int] == node.columns@[j as int].model());
            assert(column_names@[j as int]@ == col_names[j as int]);
        }
        let line = mermaid_column_text(&node.columns[j], &column_names[j]);
        body.append(line.as_str());
    }
    proof {
        assert(parts.subrange(0, parts.len() as int) =~= parts);
    }
    let mut out = String::from_str("  ");
    out.append(name.as_str());
    out.append(" {");
    push_char(&mut out, '\n');
    out.append(body.as_str());
    out.append("  }");
    push_char(&mut out, '\n');
    proof {
        assert(out@ =~= mermaid_block(n, name@));
    }
    out
}

/// The Mermaid relationship line of an edge.
fn mermaid_edge_text(graph: &LayoutGraph, edge: &LayoutEdge, names: &Vec<String>) -> (out: String)
    requires
        graph.indices_in_range(),
        names@.len() == graph.nodes@.len(),
        names@.len() < usize::MAX,
    ensures
        out@ == mermaid_edge_line(*graph, edge.model(), strings_model(names@)),
{
    let parent = edge_endpoint_name(graph, edge.to.as_str(), names, "parent");
    let child = edge_endpoint_name(graph, edge.from.as_str(), names, "child");
    let text = format_edge_label(edge);
    let label = mermaid_escape_edge_label(text.as_str());
    let mut out = String::from_str("  ");
    out.append(parent.as_str());
    out.append(" ||--o{ ");
    out.append(child.as_str());
    out.append(" : \"");
    out.append(label.as_str());
    out.append("\"");
    push_char(&mut out, '\n');
    proof {
        assert(out@ =~= mermaid_edge_line(*graph, edge.model(), strings_model(names@)));
    }
    out
}

/// Renders a [`LayoutGraph`] as a Mermaid `erDiagram` document (no markdown fence).
pub fn layout_graph_to_mermaid(graph: &LayoutGraph) -> (out: String)
    requires
        graph.indices_in_range(),
        graph.nodes@.len() < usize::MAX,
        forall|i: int| 0 <= i < graph.nodes@.len() ==> #[trigger] graph.nodes@[i].columns@.len() < usize::MAX,
    ensures
        out@ == mermaid_document(*graph),
{
    let ghost nodes = nodes_model(graph.nodes@);
    let ghost edges = edges_model(graph.edges@);
    let ghost names = mermaid_names(nodes);
    let n = graph.nodes.len();
    let mut node_names: Vec<String> = Vec::new();
    for index in 0..n
        invariant
            n == graph.nodes@.len(),
            n < usize::MAX,
            nodes == nodes_model(graph.nodes@),
            names == mermaid_names(nodes),
            node_names@.len() == index,
            strings_model(node_names@) == names.subrange(0, index as int),
    {
        let display = node_display_name(&graph.nodes[index], index);
        let quoted = mermaid_quote_entity(display.as_str(), "node", index);
        let ghost before = node_names@;
        node_names.push(quoted);
        proof {
            assert(nodes[index as int] == graph.nodes@[index as int].model());
            assert(display@ == display_name(nodes[index as int], index as nat));
            assert(names[index as int] == quoted_entity(display@, "node"@, index as nat));
            assert(node_names@[index as int]@ == names[index as int]);
            assert(strings_model(node_names@) =~= names.subrange(0, index + 1));
        }
    }
    proof {
        assert(names.subrange(0, n as int) =~= names);
    }
    let ghost blocks = Seq::new(nodes.len(), |i: int| mermaid_block(nodes[i], names[i]));
    let mut out = String::from_str("erDiagram");
    push_char(&mut out, '\n');
    let ghost head = out@;
    for index in 0..n
        invariant
            n == graph.nodes@.len(),
            nodes == nodes_model(graph.nodes@),
            names == mermaid_names(nodes),
            node_names@.len() == n,
            strings_model(node_names@) == names,
            blocks == Seq::new(nodes.len(), |i: int| mermaid_block(nodes[i], names[i])),
            forall|i: int| 0 <= i < graph.nodes@.len() ==> #[trigger] graph.nodes@[i].columns@.len() < usize::MAX,
            out@ == head + lines(blocks.subrange(0, index as int)),
    {
        proof {
            lemma_lines_step(blocks, index as int);
            assert(nodes[index as int] == graph.nodes@[index as int].model());
            assert(node_names@[index as int]@ == names[index as int]);
        }
        let block = mermaid_node_block(&graph.nodes[index], &node_names[index]);
        out.append(block.as_str());
    }
    proof {
        assert(blocks.subrange(0, n as int) =~= blocks);
    }
    let ghost body = out@;
    let ghost edge_lines = Seq::new(edges.len(), |k: int| mermaid_edge_line(*graph, edges[k], names));
    for k in 0..graph.edges.len()
        invariant
            graph.indices_in_range(),
            n == graph.nodes@.len(),
            n < usize::MAX,
            node_names@.len() == n,
            edges == edges_model(graph.edges@),
            strings_model(node_names@) == names,
            edge_lines == Seq::new(edges.len(), |k: int| mermaid_edge_line(*graph, edges[k], names)),
            out@ == body + lines(edge_lines.subrange(0, k as int)),
    {
        proof {
            lemma_lines_step(edge_lines, k as int);
            assert(edges[k as int] == graph.edges@[k as int].model());
        }
        let line = mermaid_edge_text(graph, &graph.edges[k], &node_names);
        out.append(line.as_str());
    }
    proof {
        assert(edge_lines.subrange(0, edge_lines.len() as int) =~= edge_lines);
        assert(out@ =~= mermaid_document(*graph));
    }
    out
}

/// The identifiers and labels D2 and DOT give the nodes.
fn export_names(graph: &LayoutGraph) -> (r: (Vec<String>, Vec<String>))
    requires
        graph.nodes@.len() < usize::MAX,
    ensures
        r.0@.len() == graph.nodes@.len(),
        r.1@.len() == graph.nodes@.len(),
        strings_model(r.0@) == export_ids(nodes_model(graph.nodes@)),
        strings_model(r.1@) == export_labels(nodes_model(graph.nodes@)),
{
    let ghost nodes = nodes_model(graph.nodes@);
    let n = graph.nodes.len();
    let mut ids: Vec<String> = Vec::new();
    let mut labels: Vec<String> = Vec::new();
    for index in 0..n
        invariant
            n == graph.nodes@.len(),
            n < usize::MAX,
            nodes == nodes_model(graph.nodes@),
            ids@.len() == index,
            labels@.len() == index,
            strings_model(ids@) == export_ids(nodes).subrange(0, index as int),
            strings_model(labels@) == export_labels(nodes).subrange(0, index as int),
    {
        let node = &graph.nodes[index];
        let raw_id = node_export_id(node, index);
        let id_values = [raw_id.as_str()];
        let id = fallback_export_name(&id_values, "node", index);
        let raw_label = node_display_name(node, index);
        let label_values = [raw_label.as_str()];
        let label = fallback_export_name(&label_values, "node", index);
        proof {
            assert(strs_model(id_values@) =~= seq![raw_id@]);
            assert(strs_model(label_values@) =~= seq![raw_label@]);
            assert(nodes[index as int] == node.model());
        }
        ids.push(id);
        labels.push(label);
        proof {
            assert(strings_model(ids@) =~= export_ids(nodes).subrange(0, index + 1));
            assert(strings_model(labels@) =~= export_labels(nodes).subrange(0, index + 1));
        }
    }
    proof {
        assert(export_ids(nodes).subrange(0, n as int) =~= export_ids(nodes));
        assert(export_labels(nodes).subrange(0, n as int) =~= export_labels(nodes));
    }
    (ids, labels)
}

/// Renders a [`LayoutGraph`] as D2 source (connections and optional table labels).
pub fn layout_graph_to_d2(graph: &LayoutGraph) -> (out: String)
    requires
        graph.indices_in_range(),
        graph.nodes@.len() < usize::MAX,
    ensures
        out@ == d2_document(*graph),
{
    let ghost nodes = nodes_model(graph.nodes@);
    let ghost edges = edges_model(graph.edges@);
    let (ids, labels) = export_names(graph);
    let ghost idm = strings_model(ids@);
    let ghost node_lines = Seq::new(nodes.len(), |i: int| d2_node_line(idm[i], export_labels(nodes)[i]));
    let mut out = String::new();
    for index in 0..graph.nodes.len()
        invariant
            nodes == nodes_model(graph.nodes@),
            idm == strings_model(ids@),
            idm == export_ids(nodes),
            ids@.len() == graph.nodes@.len(),
            labels@.len() == graph.nodes@.len(),
            strings_model(labels@) == export_labels(nodes),
            node_lines == Seq::new(nodes.len(), |i: int| d2_node_line(idm[i], export_labels(nodes)[i])),
            out@ == lines(node_lines.subrange(0, index as int)),
    {
        proof {
            lemma_lines_step(node_lines, index as int);
            assert(ids@[index as int]@ == idm[index as int]);
            assert(labels@[index as int]@ == export_labels(nodes)[index as int]);
        }
        let id = d2_escape(ids[index].as_str());
        let label = d2_escape(labels[index].as_str());
        let ghost before = out@;
        out.append("\"");
        out.append(id.as_str());
        out.append("\": { label: \"");
        out.append(label.as_str());
        out.append("\" }");
        push_char(&mut out, '\n');
        proof {
            assert(out@ =~= before + d2_node_line(idm[index as int], export_labels(nodes)[index as int]));
        }
    }
    proof {
        assert(node_lines.subrange(0, node_lines.len() as int) =~= node_lines);
    }
    let ghost body = out@;
    let ghost edge_lines = Seq::new(edges.len(), |k: int| d2_edge_line(*graph, edges[k], idm));
    for k in 0..graph.edges.len()
        invariant
            graph.indices_in_range(),
            graph.nodes@.len() < usize::MAX,
            ids@.len() == graph.nodes@.len(),
            edges == edges_model(graph.edges@),
            idm == strings_model(ids@),
            edge_lines == Seq::new(edges.len(), |k: int| d2_edge_line(*graph, edges[k], idm)),
            out@ == body + lines(edge_lines.subrange(0, k as int)),
    {
        proof {
            lemma_lines_step(edge_lines, k as int);
            assert(edges[k as int] == graph.edges@[k as int].model());
        }
        let edge = &graph.edges[k];
        let from_name = edge_endpoint_name(graph, edge.from.as_str(), &ids, "from");
        let to_name = edge_endpoint_name(graph, edge.to.as_str(), &ids, "to");
        let from = d2_escape(from_name.as_str());
        let to = d2_escape(to_name.as_str());
        let text = format_edge_label(edge);
        let label = d2_escape(text.as_str());
        let ghost before = out@;
        out.append("\"");
        out.append(from.as_str());
        out.append("\" -> \"");
        out.append(to.as_str());
        out.append("\": \"");
        out.append(label.as_str());
        out.append("\"");
        push_char(&mut out, '\n');
        proof {
            assert(out@ =~= before + d2_edge_line(*graph, edges[k as int], idm));
        }
    }
    proof {
        assert(edge_lines.subrange(0, edge_lines.len() as int) =~= edge_lines);
        assert(out@ =~= d2_document(*graph));
    }
    out
}

/// Renders a [`LayoutGraph`] as a Graphviz `digraph` in DOT syntax.
pub fn layout_graph_to_dot(graph: &LayoutGraph) -> (out: String)
    requires
        graph.indices_in_range(),
        graph.nodes@.len() < usize::MAX,
    ensures
        out@ == dot_document(*graph),
{
    let ghost nodes = nodes_model(graph.nodes@);
    let ghost edges = edges_model(graph.edges@);
    let mut out = String::from_str("digraph erd {");
    push_char(&mut out, '\n');
    out.append("  graph [rankdir=BT];");
    push_char(&mut out, '\n');
    out.append("  node [shape=box, fontname=\"Helvetica\"];");
    push_char(&mut out, '\n');
    out.append("  edge [fontname=\"Helvetica\"];");
    push_char(&mut out, '\n');
    proof {
        assert(out@ =~= dot_header());
    }
    let (ids, labels) = export_names(graph);
    let ghost idm = strings_model(ids@);
    let ghost node_lines = Seq::new(nodes.len(), |i: int| dot_node_line(idm[i], export_labels(nodes)[i]));
    for index in 0..graph.nodes.len()
        invariant
            nodes == nodes_model(graph.nodes@),
            idm == strings_model(ids@),
            idm == export_ids(nodes),
            ids@.len() == graph.nodes@.len(),
            labels@.len() == graph.nodes@.len(),
            strings_model(labels@) == export_labels(nodes),
            node_lines == Seq::new(nodes.len(), |i: int| dot_node_line(idm[i], export_labels(nodes)[i])),
            out@ == dot_header() + lines(node_lines.subrange(0, index as int)),
    {
        proof {
            lemma_lines_step(node_lines, index as int);
            assert(ids@[index as int]@ == idm[index as int]);
            assert(labels@[index as int]@ == export_labels(nodes)[index as int]);
        }
        let id = dot_escape(ids[index].as_str());
        let label = dot_escape(labels[index].as_str());
        let ghost before = out@;
        out.append("  \"");
        out.append(id.as_str());
        out.append("\" [label=\"");
        out.append(label.as_str());
        out.append("\"];");
        push_char(&mut out, '\n');
        proof {
            assert(out@ =~= before + dot_node_line(idm[index as int], export_labels(nodes)[index as int]));
        }
    }
    proof {
        assert(node_lines.subrange(0, node_lines.len() as int) =~= node_lines);
    }
    let ghost body = out@;
    let ghost edge_lines = Seq::new(edges.len(), |k: int| dot_edge_line(*graph, edges[k], idm));
    for k in 0..graph.edges.len()
        invariant
            graph.indices_in_range(),
            graph.nodes@.len() < usize::MAX,
            ids@.len() == graph.nodes@.len(),
            edges == edges_model(graph.edges@),
            idm == strings_model(ids@),
            edge_lines == Seq::new(edges.len(), |k: int| dot_edge_line(*graph, edges[k], idm)),
            out@ == body + lines(edge_lines.subrange(0, k as int)),
    {
        proof {
            lemma_lines_step(edge_lines, k as int);
            assert(edges[k as int] == graph.edges@[k as int].model());
        }
        let edge = &graph.edges[k];
        let from_name = edge_endpoint_name(graph, edge.from.as_str(), &ids, "from");
        let to_name = edge_endpoint_name(graph, edge.to.as_str(), &ids, "to");
        let from = dot_escape(from_name.as_str());
        let to = dot_escape(to_name.as_str());
        let text = format_edge_label(edge);
        let label = dot_escape(text.as_str());
        let ghost before = out@;
        out.append("  \"");
        out.append(from.as_str());
        out.append("\" -> \"");
        out.append(to.as_str());
        out.append("\" [label=\"");
        out.append(label.as_str());
        out.append("\"];");
        push_char(&mut out, '\n');
        proof {
            assert(out@ =~= before + dot_edge_line(*graph, edges[k as int], idm));
        }
    }
    proof {
        assert(edge_lines.subrange(0, edge_lines.len() as int) =~= edge_lines);
    }
    out.append("}");
    push_char(&mut out, '\n');
    proof {
        assert(out@ =~= dot_document(*graph));
    }
    out
}

} // verus!
