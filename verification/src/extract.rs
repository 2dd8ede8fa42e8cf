//! Text-block extraction and ranking: collect the text of container elements,
//! leave out anything nested under `script` or `style`, trim, drop short
//! blocks, deduplicate, and rank by size.
use crate::dom::{parse_dom, dom_of, nodes_view, wf_dom, DomNode, NodeKind, SpecKind, SpecNode};
use crate::text::{lex_lt, str_eq, str_lex_lt, trim_spec, trim_str};
use crate::text::{lemma_lex_connected, lemma_lex_irreflexive, lemma_lex_transitive};
use vstd::prelude::*;
use vstd::string::*;

verus! {

/// Shortest trimmed text (in characters) that counts as a genuine block.
pub const MIN_BLOCK_CHARS: usize = 61;

/// The views of a vector of strings.
pub open spec fn str_views(v: Seq<String>) -> Seq<Seq<char>> {
    v.map_values(|s: String| s@)
}

/// Tags whose subtrees are hidden from a reader.
pub open spec fn is_hidden_tag(t: Seq<char>) -> bool {
    t == "script"@ || t == "style"@
}

/// Tags scanned for candidate text blocks.
pub open spec fn is_container_tag(t: Seq<char>) -> bool {
    t == "article"@ || t == "section"@ || t == "div"@ || t == "p"@
}

pub open spec fn node_hidden(n: SpecNode) -> bool {
    match n.kind {
        SpecKind::Element { tag, .. } => is_hidden_tag(tag),
        _ => false,
    }
}

pub open spec fn cursor_bound(cur: Option<int>) -> int {
    match cur {
        Some(p) => p + 1,
        None => 0,
    }
}

pub open spec fn cursor_ok(dom: Seq<SpecNode>, cur: Option<int>) -> bool {
    match cur {
        Some(p) => 0 <= p < dom.len(),
        None => true,
    }
}

/// Whether some `script`/`style` element stands at or above the cursor.
pub open spec fn under_hidden_from(dom: Seq<SpecNode>, cur: Option<int>) -> bool
    decreases cursor_bound(cur),
        when wf_dom(dom) && cursor_ok(dom, cur)
{
    match cur {
        None => false,
        Some(p) => node_hidden(dom[p]) || under_hidden_from(dom, dom[p].parent),
    }
}

/// Whether some ancestor of node `e` is a `script`/`style` element.
pub open spec fn under_hidden(dom: Seq<SpecNode>, e: int) -> bool
    recommends
        wf_dom(dom),
        0 <= e < dom.len(),
{
    under_hidden_from(dom, dom[e].parent)
}

/// Whether walking up from the cursor reaches element `e` before any
/// `script`/`style` element.
pub open spec fn contributes_from(dom: Seq<SpecNode>, cur: Option<int>, e: int) -> bool
    decreases cursor_bound(cur),
        when wf_dom(dom) && cursor_ok(dom, cur)
{
    match cur {
        None => false,
        Some(p) => p == e || (!node_hidden(dom[p]) && contributes_from(dom, dom[p].parent, e)),
    }
}

pub open spec fn node_text(n: SpecNode) -> Seq<char> {
    match n.kind {
        SpecKind::Text { content } => content,
        _ => Seq::empty(),
    }
}

/// What text node `t` adds to the collected text of element `e`: its content
/// when it sits under `e` with no `script`/`style` element in between,
/// nothing otherwise.
pub open spec fn contribution(dom: Seq<SpecNode>, t: int, e: int) -> Seq<char> {
    if dom[t].kind matches SpecKind::Text { .. } && contributes_from(dom, dom[t].parent, e) {
        node_text(dom[t])
    } else {
        Seq::empty()
    }
}

pub open spec fn elem_text_upto(dom: Seq<SpecNode>, e: int, n: int) -> Seq<char>
    decreases n,
{
    if n <= 0 {
        Seq::empty()
    } else {
        elem_text_upto(dom, e, n - 1) + contribution(dom, n - 1, e)
    }
}

/// The readable text of element `e`: its visible descendant text nodes,
/// concatenated in document order.
pub open spec fn elem_text(dom: Seq<SpecNode>, e: int) -> Seq<char> {
    elem_text_upto(dom, e, dom.len() as int)
}

/// A candidate element: a container tag not nested under `script`/`style`.
pub open spec fn is_candidate(dom: Seq<SpecNode>, e: int) -> bool {
    &&& 0 <= e < dom.len()
    &&& (match dom[e].kind {
        SpecKind::Element { tag, .. } => is_container_tag(tag),
        _ => false,
    })
    &&& !under_hidden(dom, e)
}

pub open spec fn candidate_text(dom: Seq<SpecNode>, e: int) -> Seq<char> {
    trim_spec(elem_text(dom, e))
}

/// Whether `b` is the trimmed text of some candidate element.
pub open spec fn from_candidate(dom: Seq<SpecNode>, b: Seq<char>) -> bool {
    exists|e: int| is_candidate(dom, e) && candidate_text(dom, e) == b
}

/// The distinct trimmed texts of all candidate elements that are long enough.
pub open spec fn block_set(dom: Seq<SpecNode>) -> Set<Seq<char>> {
    Set::new(|b: Seq<char>| b.len() >= MIN_BLOCK_CHARS && from_candidate(dom, b))
}

/// The ranking order: longer blocks first, equal lengths by code point order.
pub open spec fn block_before(a: Seq<char>, b: Seq<char>) -> bool {
    a.len() > b.len() || (a.len() == b.len() && lex_lt(a, b))
}

pub open spec fn sorted_blocks(s: Seq<Seq<char>>) -> bool {
    forall|i: int, j: int| 0 <= i < j < s.len() ==> block_before(s[i], s[j])
}

pub proof fn lemma_block_before_transitive(a: Seq<char>, b: Seq<char>, c: Seq<char>)
    requires
        block_before(a, b),
        block_before(b, c),
    ensures
        block_before(a, c),
{
    if a.len() == b.len() && b.len() == c.len() {
        lemma_lex_transitive(a, b, c);
    }
}

pub proof fn lemma_block_before_connected(a: Seq<char>, b: Seq<char>)
    ensures
        a == b || block_before(a, b) || block_before(b, a),
{
    if a.len() == b.len() {
        lemma_lex_connected(a, b);
    }
}

pub proof fn lemma_block_before_irreflexive(a: Seq<char>)
    ensures
        !block_before(a, a),
{
    lemma_lex_irreflexive(a);
}

/// What `extract_top_blocks` returns: the first `k` blocks of the candidate
/// set in ranking order.
pub open spec fn topk_post(s: Set<Seq<char>>, k: int, out: Seq<Seq<char>>) -> bool {
    &&& sorted_blocks(out)
    &&& out.len() <= k
    &&& (forall|i: int| 0 <= i < out.len() ==> s.contains(out[i]))
    &&& (forall|b: Seq<char>|
        s.contains(b) && !out.contains(b) ==> out.len() == k && (0 < k ==> block_before(
            out[k - 1],
            b,
        )))
}

pub open spec fn top_blocks_post(dom: Seq<SpecNode>, k: int, out: Seq<Seq<char>>) -> bool {
    topk_post(block_set(dom), k, out)
}

spec fn opt_view(c: Option<usize>) -> Option<int> {
    match c {
        Some(p) => Some(p as int),
        None => None,
    }
}

fn kind_is_container(kind: &NodeKind) -> (r: bool)
    ensures
        r == (match kind@ {
            SpecKind::Element { tag, .. } => is_container_tag(tag),
            _ => false,
        }),
{
    match kind {
        NodeKind::Element { tag, .. } => {
            str_eq(tag.as_str(), "article") || str_eq(tag.as_str(), "section") || str_eq(
                tag.as_str(),
                "div",
            ) || str_eq(tag.as_str(), "p")
        },
        _ => false,
    }
}

fn kind_is_hidden(kind: &NodeKind) -> (r: bool)
    ensures
        r == (match kind@ {
            SpecKind::Element { tag, .. } => is_hidden_tag(tag),
            _ => false,
        }),
{
    match kind {
        NodeKind::Element { tag, .. } => {
            str_eq(tag.as_str(), "script") || str_eq(tag.as_str(), "style")
        },
        _ => false,
    }
}

/// Whether some ancestor of node `e` is a `script`/`style` element.
fn walk_under_hidden(nodes: &Vec<DomNode>, e: usize) -> (r: bool)
    requires
        wf_dom(nodes_view(nodes@)),
        e < nodes@.len(),
    ensures
        r == under_hidden(nodes_view(nodes@), e as int),
{
    let ghost dom = nodes_view(nodes@);
    let mut cur: Option<usize> = nodes[e].parent;
    proof {
        assert(dom[e as int] == nodes@[e as int]@);
    }
    loop
        invariant
            wf_dom(dom),
            dom == nodes_view(nodes@),
            cursor_ok(dom, opt_view(cur)),
            under_hidden_from(dom, opt_view(cur)) == under_hidden(dom, e as int),
        decreases cursor_bound(opt_view(cur)),
    {
        match cur {
            None => {
                return false;
            },
            Some(p) => {
                proof {
                    assert(dom[p as int] == nodes@[p as int]@);
                }
                if kind_is_hidden(&nodes[p].kind) {
                    return true;
                }
                cur = nodes[p].parent;
            },
        }
    }
}

/// Whether text node `t` is visible inside element `e`.
fn walk_contributes(nodes: &Vec<DomNode>, t: usize, e: usize) -> (r: bool)
    requires
        wf_dom(nodes_view(nodes@)),
        t < nodes@.len(),
        e < nodes@.len(),
    ensures
        r == contributes_from(nodes_view(nodes@), nodes_view(nodes@)[t as int].parent, e as int),
{
    let ghost dom = nodes_view(nodes@);
    let mut cur: Option<usize> = nodes[t].parent;
    proof {
        assert(dom[t as int] == nodes@[t as int]@);
    }
    loop
        invariant
            wf_dom(dom),
            dom == nodes_view(nodes@),
            cursor_ok(dom, opt_view(cur)),
            contributes_from(dom, opt_view(cur), e as int) == contributes_from(
                dom,
                dom[t as int].parent,
                e as int,
            ),
        decreases cursor_bound(opt_view(cur)),
    {
        match cur {
            None => {
                return false;
            },
            Some(p) => {
                proof {
                    assert(dom[p as int] == nodes@[p as int]@);
                }
                if p == e {
                    return true;
                }
                if kind_is_hidden(&nodes[p].kind) {
                    return false;
                }
                cur = nodes[p].parent;
            },
        }
    }
}

/// The readable text of element `e`, in document order.
fn element_text(nodes: &Vec<DomNode>, e: usize) -> (r: String)
    requires
        wf_dom(nodes_view(nodes@)),
        e < nodes@.len(),
    ensures
        r@ == elem_text(nodes_view(nodes@), e as int),
{
    let ghost dom = nodes_view(nodes@);
    let mut acc = String::new();
    let n = nodes.len();
    let mut t: usize = 0;
    while t < n
        invariant
            wf_dom(dom),
            dom == nodes_view(nodes@),
            e < n == nodes@.len(),
            0 <= t <= n,
            acc@ == elem_text_upto(dom, e as int, t as int),
        decreases n - t,
    {
        match &nodes[t].kind {
            NodeKind::Text { content } => {
                if walk_contributes(nodes, t, e) {
                    acc.append(content.as_str());
                } else {
                    proof {
                        assert(acc@ + contribution(dom, t as int, e as int) =~= acc@);
                    }
                }
            },
            _ => {
                proof {
                    assert(acc@ + contribution(dom, t as int, e as int) =~= acc@);
                }
            },
        }
        t += 1;
    }
    acc
}

/// Collect the trimmed text of every candidate element that is long enough.
fn collect_blocks(nodes: &Vec<DomNode>) -> (r: Vec<String>)
    requires
        wf_dom(nodes_view(nodes@)),
    ensures
        forall|i: int| 0 <= i < r@.len() ==> block_set(nodes_view(nodes@)).contains(r@[i]@),
        forall|b: Seq<char>|
            block_set(nodes_view(nodes@)).contains(b) ==> str_views(r@).contains(b),
{
    let ghost dom = nodes_view(nodes@);
    let mut out: Vec<String> = Vec::new();
    let n = nodes.len();
    let mut e: usize = 0;
    while e < n
        invariant
            wf_dom(dom),
            dom == nodes_view(nodes@),
            n == nodes@.len(),
            0 <= e <= n,
            forall|i: int| 0 <= i < out@.len() ==> block_set(dom).contains(out@[i]@),
            forall|b: Seq<char>|
                b.len() >= MIN_BLOCK_CHARS && (exists|e2: int|
                    e2 < e && is_candidate(dom, e2) && candidate_text(dom, e2) == b) ==> str_views(
                    out@,
                ).contains(b),
        decreases n - e,
    {
        let ghost old_out = out@;
        if kind_is_container(&nodes[e].kind) && !walk_under_hidden(nodes, e) {
            let txt = element_text(nodes, e);
            let trimmed = trim_str(txt.as_str());
            if trimmed.as_str().unicode_len() >= MIN_BLOCK_CHARS {
                assert(block_set(dom).contains(trimmed@)) by {
                    assert(is_candidate(dom, e as int) && candidate_text(dom, e as int)
                        == trimmed@);
                }
                out.push(trimmed);
            }
        }
        proof {
            if out@ != old_out {
                assert(str_views(out@) =~= str_views(old_out).push(out@.last()@));
            }
            assert forall|b: Seq<char>|
                b.len() >= MIN_BLOCK_CHARS && (exists|e2: int|
                    e2 < e + 1 && is_candidate(dom, e2) && candidate_text(dom, e2)
                        == b) implies str_views(out@).contains(b) by {
                let e2 = choose|e2: int|
                    e2 < e + 1 && is_candidate(dom, e2) && candidate_text(dom, e2) == b;
                if e2 < e {
                    assert(str_views(old_out).contains(b));
                    let i = choose|i: int| 0 <= i < str_views(old_out).len() && str_views(old_out)[i] == b;
                    assert(str_views(out@)[i] == b);
                } else {
                    assert(str_views(out@).last() == b);
                }
            }
        }
        e += 1;
    }
    proof {
        assert forall|b: Seq<char>| block_set(dom).contains(b) implies str_views(out@).contains(
            b,
        ) by {
            let e2 = choose|e2: int| is_candidate(dom, e2) && candidate_text(dom, e2) == b;
            assert(e2 < n);
        }
    }
    out
}

/// The ranking order, decided executably.
fn block_before_exec(a: &str, b: &str) -> (r: bool)
    ensures
        r == block_before(a@, b@),
{
    let al = a.unicode_len();
    let bl = b.unicode_len();
    if al > bl {
        true
    } else if al == bl {
        str_lex_lt(a, b)
    } else {
        false
    }
}

/// Insert a block into a list kept in ranking order, unless an equal block is
/// already there.
fn insert_sorted(out: &mut Vec<String>, b: String)
    requires
        sorted_blocks(str_views(old(out)@)),
    ensures
        sorted_blocks(str_views(final(out)@)),
        forall|x: Seq<char>|
            str_views(final(out)@).contains(x) <==> (str_views(old(out)@).contains(x) || x == b@),
{
    let mut j: usize = 0;
    loop
        invariant
            sorted_blocks(str_views(out@)),
            out@ == old(out)@,
            0 <= j <= out@.len(),
            forall|i: int| 0 <= i < j ==> block_before(str_views(out@)[i], b@),
        ensures
            out@ == old(out)@,
            0 <= j <= out@.len(),
            forall|i: int| 0 <= i < j ==> block_before(str_views(out@)[i], b@),
            j == out@.len() || !block_before(str_views(out@)[j as int], b@),
        decreases out@.len() - j,
    {
        if j >= out.len() {
            break ;
        }
        if !block_before_exec(out[j].as_str(), b.as_str()) {
            break ;
        }
        j += 1;
    }
    let ghost pre = str_views(out@);
    if j < out.len() {
        if str_eq(out[j].as_str(), b.as_str()) {
            assert(str_views(out@).contains(b@)) by {
                assert(str_views(out@)[j as int] == b@);
            }
            return ;
        }
        proof {
            lemma_block_before_connected(pre[j as int], b@);
        }
        out.insert(j, b);
        proof {
            assert(str_views(out@) =~= pre.insert(j as int, b@)) by {
                old(out)@.insert_ensures(j as int, b);
                pre.insert_ensures(j as int, b@);
            }
            pre.insert_ensures(j as int, b@);
            let post = str_views(out@);
            assert forall|i1: int, i2: int| 0 <= i1 < i2 < post.len() implies block_before(
                post[i1],
                post[i2],
            ) by {
                if i1 < j && i2 == j {
                } else if i1 == j && i2 > j {
                    if i2 - 1 > j {
                        lemma_block_before_transitive(b@, pre[j as int], pre[i2 - 1]);
                    }
                } else if i1 < j && i2 > j {
                } else if i1 > j && i2 > j {
                }
            }
            assert forall|x: Seq<char>| post.contains(x) <==> (pre.contains(x) || x == b@) by {
                if post.contains(x) {
                    let i = choose|i: int| 0 <= i < post.len() && post[i] == x;
                    if i < j {
                        assert(pre[i] == x);
                    } else if i == j {
                    } else {
                        assert(pre[i - 1] == x);
                    }
                }
                if pre.contains(x) {
                    let i = choose|i: int| 0 <= i < pre.len() && pre[i] == x;
                    if i < j {
                        assert(post[i] == x);
                    } else {
                        assert(post[i + 1] == x);
                    }
                }
                if x == b@ {
                    assert(post[j as int] == x);
                }
            }
        }
    } else {
        out.push(b);
        proof {
            assert(str_views(out@) =~= pre.push(b@));
            let post = str_views(out@);
            assert forall|x: Seq<char>| post.contains(x) <==> (pre.contains(x) || x == b@) by {
                if post.contains(x) {
                    let i = choose|i: int| 0 <= i < post.len() && post[i] == x;
                    if i < pre.len() {
                        assert(pre[i] == x);
                    }
                }
                if pre.contains(x) {
                    let i = choose|i: int| 0 <= i < pre.len() && pre[i] == x;
                    assert(post[i] == x);
                }
                if x == b@ {
                    assert(post[post.len() - 1] == x);
                }
            }
        }
    }
}

/// Sort the collected blocks into ranking order, deduplicated, and keep the
/// first `k`.
fn rank_blocks(blocks: &Vec<String>, k: usize) -> (r: Vec<String>)
    ensures
        topk_post(str_views(blocks@).to_set(), k as int, str_views(r@)),
{
    let mut sorted_list: Vec<String> = Vec::new();
    let n = blocks.len();
    let mut i: usize = 0;
    while i < n
        invariant
            0 <= i <= n,
            n == blocks@.len(),
            sorted_blocks(str_views(sorted_list@)),
            forall|x: Seq<char>|
                str_views(sorted_list@).contains(x) <==> str_views(blocks@.take(i as int)).contains(
                    x,
                ),
        decreases n - i,
    {
        let ghost pre_take = str_views(blocks@.take(i as int));
        let ghost pre_sorted = str_views(sorted_list@);
        insert_sorted(&mut sorted_list, blocks[i].clone());
        proof {
            let bi = blocks@[i as int]@;
            let next_take = str_views(blocks@.take(i + 1));
            assert(next_take =~= pre_take.push(bi)) by {
                assert(blocks@.take(i + 1) =~= blocks@.take(i as int).push(blocks@[i as int]));
            }
            assert forall|x: Seq<char>|
                str_views(sorted_list@).contains(x) <==> next_take.contains(x) by {
                if str_views(sorted_list@).contains(x) {
                    if x == bi {
                        assert(next_take[next_take.len() - 1] == x);
                    } else {
                        assert(pre_sorted.contains(x));
                        assert(pre_take.contains(x));
                        let q = choose|q: int| 0 <= q < pre_take.len() && pre_take[q] == x;
                        assert(next_take[q] == x);
                    }
                }
                if next_take.contains(x) {
                    let q = choose|q: int| 0 <= q < next_take.len() && next_take[q] == x;
                    if q < pre_take.len() {
                        assert(pre_take[q] == x);
                        assert(pre_sorted.contains(x));
                    } else {
                        assert(x == bi);
                    }
                    assert(str_views(sorted_list@).contains(x));
                }
            }
        }
        i += 1;
    }
    proof {
        assert(blocks@.take(n as int) =~= blocks@);
    }
    let ghost full = str_views(sorted_list@);
    let mut r = sorted_list;
    r.truncate(k);
    proof {
        let s = str_views(blocks@).to_set();
        let out = str_views(r@);
        if k < full.len() {
            assert(out =~= full.subrange(0, k as int));
        } else {
            assert(out == full);
        }
        assert forall|i: int| 0 <= i < out.len() implies s.contains(out[i]) by {
            assert(full[i] == out[i]);
            assert(full.contains(out[i]));
            assert(str_views(blocks@).contains(out[i]));
        }
        assert forall|b: Seq<char>| s.contains(b) && !out.contains(b) implies out.len() == k as int
            && (0 < k ==> block_before(out[k - 1], b)) by {
            assert(str_views(blocks@).contains(b));
            assert(full.contains(b));
            let idx = choose|idx: int| 0 <= idx < full.len() && full[idx] == b;
            if idx < out.len() {
                assert(out[idx] == b);
            } else {
                assert(out.len() == k as int);
                if 0 < k {
                    assert(out[k - 1] == full[k - 1]);
                    assert(block_before(full[k - 1], full[idx]));
                }
            }
        }
    }
    r
}

/// Extract the top `k` ranked text blocks of an HTML document.
///
/// The result is the first `k` of the document's distinct, trimmed candidate
/// texts in ranking order: longest first, equal lengths by code point order,
/// nothing shorter than [`MIN_BLOCK_CHARS`] characters, and nothing nested
/// under a `script` or `style` element.
pub fn extract_top_blocks(html: &str, k: usize) -> (r: Vec<String>)
    ensures
        top_blocks_post(dom_of(html@), k as int, str_views(r@)),
{
    let nodes = parse_dom(html);
    let blocks = collect_blocks(&nodes);
    let r = rank_blocks(&blocks, k);
    proof {
        assert(str_views(blocks@).to_set() =~= block_set(nodes_view(nodes@)));
        assert(nodes_view(nodes@) == dom_of(html@));
    }
    r
}

/// Every returned block is long enough, stems from a candidate element (so
/// never from inside a `script`/`style` subtree), lengths never increase,
/// and no block repeats; at most `k` are returned.
pub proof fn lemma_top_blocks_properties(dom: Seq<SpecNode>, k: int, out: Seq<Seq<char>>)
    requires
        top_blocks_post(dom, k, out),
    ensures
        out.len() <= k,
        forall|i: int| 0 <= i < out.len() ==> (#[trigger] out[i]).len() >= MIN_BLOCK_CHARS,
        forall|i: int| 0 <= i < out.len() ==> from_candidate(dom, #[trigger] out[i]),
        forall|i: int, j: int| 0 <= i < j < out.len() ==> out[i].len() >= out[j].len(),
        forall|i: int, j: int| 0 <= i < j < out.len() ==> out[i] != out[j],
{
    assert forall|i: int| 0 <= i < out.len() implies (#[trigger] out[i]).len() >= MIN_BLOCK_CHARS
        && from_candidate(dom, out[i]) by {
        assert(block_set(dom).contains(out[i]));
    }
    assert forall|i: int, j: int| 0 <= i < j < out.len() implies out[i].len() >= out[j].len() by {
        assert(block_before(out[i], out[j]));
    }
    assert forall|i: int, j: int| 0 <= i < j < out.len() implies out[i] != out[j] by {
        assert(block_before(out[i], out[j]));
        if out[i] == out[j] {
            lemma_block_before_irreflexive(out[i]);
        }
    }
}

/// The contract pins the result: any two sequences that both satisfy it are
/// equal. Extraction is therefore a function of the candidate set and `k`
/// alone, and two runs on identical input yield identical output.
pub proof fn lemma_topk_unique(s: Set<Seq<char>>, k: int, out1: Seq<Seq<char>>, out2: Seq<Seq<char>>)
    requires
        topk_post(s, k, out1),
        topk_post(s, k, out2),
    ensures
        out1 == out2,
    decreases out1.len(),
{
    if out1.len() == 0 {
        if out2.len() > 0 {
            assert(s.contains(out2[0]));
            assert(!out1.contains(out2[0]));
            assert(out1.len() == k);
            assert(out2.len() <= 0);
        }
        assert(out1 =~= out2);
    } else {
        if out2.len() == 0 {
            assert(s.contains(out1[0]));
            assert(!out2.contains(out1[0]));
            assert(out2.len() == k);
            assert(out1.len() <= 0);
        }
        let m1 = out1[0];
        let m2 = out2[0];
        assert(block_before(m1, m2) || m1 == m2) by {
            lemma_topk_head_min(s, k, out1, m2);
        }
        assert(block_before(m2, m1) || m2 == m1) by {
            lemma_topk_head_min(s, k, out2, m1);
        }
        if m1 != m2 {
            lemma_block_before_transitive(m1, m2, m1);
            lemma_block_before_irreflexive(m1);
        }
        let s1 = s.remove(m1);
        lemma_topk_tail(s, k, out1);
        lemma_topk_tail(s, k, out2);
        assert(s.remove(m2) =~= s1);
        lemma_topk_unique(s1, k - 1, out1.drop_first(), out2.drop_first());
        assert forall|i: int| 0 <= i < out1.len() implies out1[i] == out2[i] by {
            if i > 0 {
                assert(out1[i] == out1.drop_first()[i - 1]);
                assert(out2[i] == out2.drop_first()[i - 1]);
            }
        }
        assert(out1 =~= out2);
    }
}

/// The head of a non-empty result comes no later in the ranking order than
/// any member of the set.
proof fn lemma_topk_head_min(s: Set<Seq<char>>, k: int, out: Seq<Seq<char>>, b: Seq<char>)
    requires
        topk_post(s, k, out),
        out.len() > 0,
        s.contains(b),
    ensures
        block_before(out[0], b) || out[0] == b,
{
    if out.contains(b) {
        let q = choose|q: int| 0 <= q < out.len() && out[q] == b;
        if q > 0 {
            assert(block_before(out[0], out[q]));
        }
    } else {
        assert(out.len() == k && 0 < k);
        assert(block_before(out[k - 1], b));
        if k - 1 > 0 {
            assert(block_before(out[0], out[k - 1]));
            lemma_block_before_transitive(out[0], out[k - 1], b);
        }
    }
}

/// Dropping the head of a result gives a result for the set without it.
proof fn lemma_topk_tail(s: Set<Seq<char>>, k: int, out: Seq<Seq<char>>)
    requires
        topk_post(s, k, out),
        out.len() > 0,
    ensures
        topk_post(s.remove(out[0]), k - 1, out.drop_first()),
{
    let m = out[0];
    let s1 = s.remove(m);
    let tail = out.drop_first();
    assert forall|i: int, j: int| 0 <= i < j < tail.len() implies block_before(
        tail[i],
        tail[j],
    ) by {
        assert(tail[i] == out[i + 1]);
        assert(tail[j] == out[j + 1]);
    }
    assert forall|i: int| 0 <= i < tail.len() implies s1.contains(tail[i]) by {
        assert(tail[i] == out[i + 1]);
        assert(s.contains(out[i + 1]));
        assert(block_before(out[0], out[i + 1]));
        if out[i + 1] == m {
            lemma_block_before_irreflexive(m);
        }
    }
    assert forall|b: Seq<char>| s1.contains(b) && !tail.contains(b) implies tail.len() == k - 1
        && (0 < k - 1 ==> block_before(tail[k - 2], b)) by {
        assert(s.contains(b) && b != m);
        if out.contains(b) {
            let q = choose|q: int| 0 <= q < out.len() && out[q] == b;
            assert(q > 0);
            assert(tail[q - 1] == b);
        }
        assert(!out.contains(b));
        assert(out.len() == k && (0 < k ==> block_before(out[k - 1], b)));
        if 0 < k - 1 {
            assert(tail[k - 2] == out[k - 1]);
        }
    }
}

/// Extraction is deterministic: the contract of `extract_top_blocks` admits
/// exactly one output for a given document and `k`, so calling it twice on
/// identical text yields identical block lists.
pub proof fn lemma_top_blocks_deterministic(
    dom: Seq<SpecNode>,
    k: int,
    out1: Seq<Seq<char>>,
    out2: Seq<Seq<char>>,
)
    requires
        top_blocks_post(dom, k, out1),
        top_blocks_post(dom, k, out2),
    ensures
        out1 == out2,
{
    lemma_topk_unique(block_set(dom), k, out1, out2);
}

} // verus!
