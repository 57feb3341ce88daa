use vstd::prelude::*;
use crate::model::{CrateInfo, Dependency, Publish, Repository};

verus! {

/// How packages are grouped in the rendered graph.
#[derive(Debug, Clone, Copy)]
pub enum GraphType {
    /// One labelled subgraph per repository; nodes styled by publish policy.
    Cluster,
    /// A flat graph; nodes filled with their repository's palette color.
    Colors,
}

/// The number of colors of the palette used by `GraphType::Colors`.
pub const PALETTE_SIZE: usize = 22;

/// The palette of `GraphType::Colors`, indexed by repository position.
pub open spec fn palette_spec(i: int) -> Seq<char> {
    if i == 0 { "#e6194b"@ }
    else if i == 1 { "#3cb44b"@ }
    else if i == 2 { "#ffe119"@ }
    else if i == 3 { "#4363d8"@ }
    else if i == 4 { "#f58231"@ }
    else if i == 5 { "#911eb4"@ }
    else if i == 6 { "#46f0f0"@ }
    else if i == 7 { "#f032e6"@ }
    else if i == 8 { "#bcf60c"@ }
    else if i == 9 { "#fabebe"@ }
    else if i == 10 { "#008080"@ }
    else if i == 11 { "#e6beff"@ }
    else if i == 12 { "#9a6324"@ }
    else if i == 13 { "#fffac8"@ }
    else if i == 14 { "#800000"@ }
    else if i == 15 { "#aaffc3"@ }
    else if i == 16 { "#808000"@ }
    else if i == 17 { "#ffd8b1"@ }
    else if i == 18 { "#000075"@ }
    else if i == 19 { "#808080"@ }
    else if i == 20 { "#ffffff"@ }
    else { "#000000"@ }
}

/// The palette color of the repository at position `i`.
pub fn palette_color(i: usize) -> (r: &'static str)
    requires
        i < PALETTE_SIZE,
    ensures
        r@ == palette_spec(i as int),
{
    if i == 0 { "#e6194b" }
    else if i == 1 { "#3cb44b" }
    else if i == 2 { "#ffe119" }
    else if i == 3 { "#4363d8" }
    else if i == 4 { "#f58231" }
    else if i == 5 { "#911eb4" }
    else if i == 6 { "#46f0f0" }
    else if i == 7 { "#f032e6" }
    else if i == 8 { "#bcf60c" }
    else if i == 9 { "#fabebe" }
    else if i == 10 { "#008080" }
    else if i == 11 { "#e6beff" }
    else if i == 12 { "#9a6324" }
    else if i == 13 { "#fffac8" }
    else if i == 14 { "#800000" }
    else if i == 15 { "#aaffc3" }
    else if i == 16 { "#808000" }
    else if i == 17 { "#ffd8b1" }
    else if i == 18 { "#000075" }
    else if i == 19 { "#808080" }
    else if i == 20 { "#ffffff" }
    else { "#000000" }
}

/// Node attributes of a package in clustered mode, from its publish policy.
pub open spec fn publish_attr(p: Publish) -> Seq<char> {
    match p {
        Publish::Nowhere => "color=blue"@,
        Publish::Default => "color=green"@,
        Publish::At(_) => ""@,
    }
}

pub open spec fn cluster_node(c: CrateInfo) -> Seq<char> {
    "        \""@ + c.name@ + "\" ["@ + publish_attr(c.published_to) + "];\n"@
}

pub open spec fn cluster_nodes(cs: Seq<CrateInfo>) -> Seq<char>
    decreases cs.len(),
{
    if cs.len() == 0 {
        Seq::empty()
    } else {
        cluster_nodes(cs.drop_last()) + cluster_node(cs.last())
    }
}

pub open spec fn cluster(r: Repository) -> Seq<char> {
    "    subgraph \"cluster_"@ + r.id@ + "\" {\n"@ + "        label = \""@ + r.id@ + "\";\n"@
        + "        style = filled;\n"@ + cluster_nodes(r.crates@) + "    }\n"@
}

pub open spec fn clusters(rs: Seq<Repository>) -> Seq<char>
    decreases rs.len(),
{
    if rs.len() == 0 {
        Seq::empty()
    } else {
        clusters(rs.drop_last()) + cluster(rs.last())
    }
}

pub open spec fn color_node(c: CrateInfo, color: Seq<char>) -> Seq<char> {
    "    \""@ + c.name@ + "\" [style=filled, fillcolor=\""@ + color + "\"];\n"@
}

pub open spec fn color_nodes(cs: Seq<CrateInfo>, color: Seq<char>) -> Seq<char>
    decreases cs.len(),
{
    if cs.len() == 0 {
        Seq::empty()
    } else {
        color_nodes(cs.drop_last(), color) + color_node(cs.last(), color)
    }
}

pub open spec fn colored(rs: Seq<Repository>) -> Seq<char>
    decreases rs.len(),
{
    if rs.len() == 0 {
        Seq::empty()
    } else {
        colored(rs.drop_last()) + color_nodes(rs.last().crates@, palette_spec(rs.len() - 1))
    }
}

/// A dependency is drawn only when it gives a local path or pins a registry.
pub open spec fn edge_shown(d: Dependency) -> bool {
    d.has_path || d.from is Some
}

/// The edge line of dependency `d` of the package called `from`; empty when
/// the dependency is not drawn. Path dependencies are drawn in blue.
pub open spec fn edge(from: Seq<char>, d: Dependency) -> Seq<char> {
    if edge_shown(d) {
        "    \""@ + from + "\" -> \""@ + d.name@ + "\" "@ + (if d.has_path {
            "[color=blue]"@
        } else {
            ""@
        }) + ";\n"@
    } else {
        Seq::empty()
    }
}

pub open spec fn edges(from: Seq<char>, ds: Seq<Dependency>) -> Seq<char>
    decreases ds.len(),
{
    if ds.len() == 0 {
        Seq::empty()
    } else {
        edges(from, ds.drop_last()) + edge(from, ds.last())
    }
}

pub open spec fn crate_edges(cs: Seq<CrateInfo>) -> Seq<char>
    decreases cs.len(),
{
    if cs.len() == 0 {
        Seq::empty()
    } else {
        crate_edges(cs.drop_last()) + edges(cs.last().name@, cs.last().deps@)
    }
}

pub open spec fn all_edges(rs: Seq<Repository>) -> Seq<char>
    decreases rs.len(),
{
    if rs.len() == 0 {
        Seq::empty()
    } else {
        all_edges(rs.drop_last()) + crate_edges(rs.last().crates@)
    }
}

/// The whole directed-graph document for the universe `rs`.
pub open spec fn graph_text(t: GraphType, rs: Seq<Repository>) -> Seq<char> {
    "digraph G {\n"@ + "    node [shape=rectangle]\n"@ + (match t {
        GraphType::Cluster => clusters(rs),
        GraphType::Colors => colored(rs),
    }) + all_edges(rs) + "}\n"@
}

fn push_cluster_nodes(out: &mut String, crates: &Vec<CrateInfo>)
    ensures
        final(out)@ == old(out)@ + cluster_nodes(crates@),
{
    let ghost start = out@;
    let mut i: usize = 0;
    while i < crates.len()
        invariant
            i <= crates.len(),
            out@ == start + cluster_nodes(crates@.subrange(0, i as int)),
        decreases crates.len() - i,
    {
        let c = &crates[i];
        out.append("        \"");
        out.append(c.name.as_str());
        out.append("\" [");
        match c.published_to {
            Publish::Nowhere => out.append("color=blue"),
            Publish::Default => out.append("color=green"),
            Publish::At(_) => out.append(""),
        }
        out.append("];\n");
        proof {
            let s = crates@.subrange(0, i + 1);
            assert(s.drop_last() =~= crates@.subrange(0, i as int));
            assert(out@ =~= start + cluster_nodes(s));
        }
        i += 1;
    }
    assert(crates@.subrange(0, crates@.len() as int) =~= crates@);
}

fn push_clusters(out: &mut String, infos: &Vec<Repository>)
    ensures
        final(out)@ == old(out)@ + clusters(infos@),
{
    let ghost start = out@;
    let mut i: usize = 0;
    while i < infos.len()
        invariant
            i <= infos.len(),
            out@ == start + clusters(infos@.subrange(0, i as int)),
        decreases infos.len() - i,
    {
        let r = &infos[i];
        let ghost before = out@;
        out.append("    subgraph \"cluster_");
        out.append(r.id.as_str());
        out.append("\" {\n");
        out.append("        label = \"");
        out.append(r.id.as_str());
        out.append("\";\n");
        out.append("        style = filled;\n");
        push_cluster_nodes(out, &r.crates);
        out.append("    }\n");
        proof {
            let s = infos@.subrange(0, i + 1);
            assert(s.drop_last() =~= infos@.subrange(0, i as int));
            assert(out@ =~= before + cluster(*r));
            assert(out@ =~= start + clusters(s));
        }
        i += 1;
    }
    assert(infos@.subrange(0, infos@.len() as int) =~= infos@);
}

fn push_color_nodes(out: &mut String, crates: &Vec<CrateInfo>, color: &str)
    ensures
        final(out)@ == old(out)@ + color_nodes(crates@, color@),
{
    let ghost start = out@;
    let mut i: usize = 0;
    while i < crates.len()
        invariant
            i <= crates.len(),
            out@ == start + color_nodes(crates@.subrange(0, i as int), color@),
        decreases crates.len() - i,
    {
        let c = &crates[i];
        out.append("    \"");
        out.append(c.name.as_str());
        out.append("\" [style=filled, fillcolor=\"");
        out.append(color);
        out.append("\"];\n");
        proof {
            let s = crates@.subrange(0, i + 1);
            assert(s.drop_last() =~= crates@.subrange(0, i as int));
            assert(out@ =~= start + color_nodes(s, color@));
        }
        i += 1;
    }
    assert(crates@.subrange(0, crates@.len() as int) =~= crates@);
}

fn push_colored(out: &mut String, infos: &Vec<Repository>)
    requires
        infos@.len() <= PALETTE_SIZE,
    ensures
        final(out)@ == old(out)@ + colored(infos@),
{
    let ghost start = out@;
    let mut i: usize = 0;
    while i < infos.len()
        invariant
            i <= infos.len(),
            infos@.len() <= PALETTE_SIZE,
            out@ == start + colored(infos@.subrange(0, i as int)),
        decreases infos.len() - i,
    {
        let ghost before = out@;
        push_color_nodes(out, &infos[i].crates, palette_color(i));
        proof {
            let s = infos@.subrange(0, i + 1);
            assert(s.drop_last() =~= infos@.subrange(0, i as int));
            assert(out@ =~= start + colored(s));
        }
        i += 1;
    }
    assert(infos@.subrange(0, infos@.len() as int) =~= infos@);
}

fn push_edges(out: &mut String, c: &CrateInfo)
    ensures
        final(out)@ == old(out)@ + edges(c.name@, c.deps@),
{
    let ghost start = out@;
    let mut i: usize = 0;
    while i < c.deps.len()
        invariant
            i <= c.deps.len(),
            out@ == start + edges(c.name@, c.deps@.subrange(0, i as int)),
        decreases c.deps.len() - i,
    {
        let d = &c.deps[i];
        let ghost before = out@;
        if d.from.is_some() || d.has_path {
            out.append("    \"");
            out.append(c.name.as_str());
            out.append("\" -> \"");
            out.append(d.name.as_str());
            out.append("\" ");
            if d.has_path {
                out.append("[color=blue]");
            } else {
                out.append("");
            }
            out.append(";\n");
        }
        proof {
            let s = c.deps@.subrange(0, i + 1);
            assert(s.drop_last() =~= c.deps@.subrange(0, i as int));
            assert(out@ =~= before + edge(c.name@, *d));
            assert(out@ =~= start + edges(c.name@, s));
        }
        i += 1;
    }
    assert(c.deps@.subrange(0, c.deps@.len() as int) =~= c.deps@);
}

fn push_all_edges(out: &mut String, infos: &Vec<Repository>)
    ensures
        final(out)@ == old(out)@ + all_edges(infos@),
{
    let ghost start = out@;
    let mut i: usize = 0;
    while i < infos.len()
        invariant
            i <= infos.len(),
            out@ == start + all_edges(infos@.subrange(0, i as int)),
        decreases infos.len() - i,
    {
        let crates = &infos[i].crates;
        let ghost mid = out@;
        let mut k: usize = 0;
        while k < crates.len()
            invariant
                i < infos.len(),
                crates == &infos@[i as int].crates,
                k <= crates.len(),
                out@ == mid + crate_edges(crates@.subrange(0, k as int)),
            decreases crates.len() - k,
        {
            push_edges(out, &crates[k]);
            proof {
                let s = crates@.subrange(0, k + 1);
                assert(s.drop_last() =~= crates@.subrange(0, k as int));
                assert(out@ =~= mid + crate_edges(s));
            }
            k += 1;
        }
        proof {
            assert(crates@.subrange(0, crates@.len() as int) =~= crates@);
            let s = infos@.subrange(0, i + 1);
            assert(s.drop_last() =~= infos@.subrange(0, i as int));
            assert(out@ =~= start + all_edges(s));
        }
        i += 1;
    }
    assert(infos@.subrange(0, infos@.len() as int) =~= infos@);
}

/// Colored mode was asked for a universe with more repositories than the
/// palette has colors.
#[derive(Debug)]
pub struct PaletteExhausted {
    pub repositories: usize,
    pub colors: usize,
}

/// Renders the universe as a directed-graph document. Colored mode fails,
/// before producing anything, when the universe has more repositories than
/// the palette has colors; every other call succeeds.
pub fn make_graph(graph_type: GraphType, infos: &Vec<Repository>) -> (r: Result<String, PaletteExhausted>)
    ensures
        r is Err <==> (graph_type is Colors && infos@.len() > PALETTE_SIZE),
        r matches Ok(s) ==> s@ == graph_text(graph_type, infos@),
        r matches Err(e) ==> e.repositories == infos@.len() && e.colors == PALETTE_SIZE,
{
    let colors = match graph_type {
        GraphType::Colors => true,
        GraphType::Cluster => false,
    };
    if colors && infos.len() > PALETTE_SIZE {
        return Err(PaletteExhausted { repositories: infos.len(), colors: PALETTE_SIZE });
    }
    let mut out = String::new();
    out.append("digraph G {\n");
    out.append("    node [shape=rectangle]\n");
    if colors {
        push_colored(&mut out, infos);
    } else {
        push_clusters(&mut out, infos);
    }
    push_all_edges(&mut out, infos);
    out.append("}\n");
    assert(out@ =~= graph_text(graph_type, infos@));
    Ok(out)
}

/// Rendering is a function of the mode and the universe alone: two renderings
/// of one universe in one mode are the same text.
pub proof fn lemma_render_deterministic(
    t: GraphType,
    u1: Seq<Repository>,
    u2: Seq<Repository>,
    s1: Seq<char>,
    s2: Seq<char>,
)
    requires
        u1 == u2,
        s1 == graph_text(t, u1),
        s2 == graph_text(t, u2),
    ensures
        s1 == s2,
{
}

/// A dependency with neither a path nor a registry gives no edge; one with a
/// path gives an edge in the path color.
pub proof fn lemma_edge_policy(from: Seq<char>, d: Dependency)
    ensures
        !d.has_path && d.from is None ==> edge(from, d) == Seq::<char>::empty(),
        d.has_path ==> edge(from, d) == "    \""@ + from + "\" -> \""@ + d.name@ + "\" "@
            + "[color=blue]"@ + ";\n"@,
        !d.has_path && d.from is Some ==> edge(from, d) == "    \""@ + from + "\" -> \""@ + d.name@
            + "\" "@ + ""@ + ";\n"@,
{
}

} // verus!
