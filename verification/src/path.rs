//! Unix paths as byte strings: their components, their order and their prefixes.
//!
//! Two paths are the same when their components are, so `/a//b`, `/a/./b` and
//! `/a/b/` name one file.

use vstd::prelude::*;
use vstd::slice::slice_subrange;

verus! {

/// The byte `/`.
pub const SLASH: u8 = 47;

/// The byte `.`.
pub const DOT: u8 = 46;

/// One component of a path.
pub enum Component {
    /// The `/` that an absolute path starts with.
    Root,
    /// A `.` that a relative path starts with.
    Current,
    /// A `..`.
    Parent,
    /// Anything else.
    Normal(Seq<u8>),
}

/// How two paths stand to each other.
#[derive(Clone, Copy, Debug, PartialEq, Eq, Structural)]
pub enum PathOrder {
    Before,
    Same,
    After,
}

/// The path starts at the root.
pub open spec fn absolute(path: Seq<u8>) -> bool {
    path.len() > 0 && path[0] == SLASH
}

/// The index of the first `/` at or after `from`, or the length if there is none.
pub open spec fn piece_end(path: Seq<u8>, from: int) -> int
    decreases path.len() - from,
{
    if from < 0 || from >= path.len() {
        path.len() as int
    } else if path[from] == SLASH {
        from
    } else {
        piece_end(path, from + 1)
    }
}

/// What stands between two slashes and is no component: nothing, or a single `.`.
pub open spec fn is_filler(piece: Seq<u8>) -> bool {
    piece.len() == 0 || piece == seq![DOT]
}

/// Where the components after the leading one lie: for each the index of its first
/// byte and the index behind its last, for the part of the path that starts at `from`.
pub open spec fn spans(path: Seq<u8>, from: int) -> Seq<(int, int)>
    decreases path.len() + 1 - from,
{
    if from < 0 || from > path.len() {
        Seq::empty()
    } else {
        let end = piece_end(path, from);
        proof {
            lemma_piece_end(path, from);
        }
        let rest = spans(path, end + 1);
        if is_filler(path.subrange(from, end)) {
            rest
        } else {
            seq![(from, end)] + rest
        }
    }
}

/// The component that a piece between two slashes stands for.
pub open spec fn component(piece: Seq<u8>) -> Component {
    if piece == seq![DOT, DOT] {
        Component::Parent
    } else {
        Component::Normal(piece)
    }
}

/// The components after the leading one, from index `from` of the path on.
pub open spec fn body(path: Seq<u8>, from: int) -> Seq<Component> {
    let s = spans(path, from);
    Seq::new(s.len(), |i: int| component(path.subrange(s[i].0, s[i].1)))
}

/// The leading component of a path that starts with `/` or with `.`.
pub open spec fn lead(path: Seq<u8>) -> Seq<Component> {
    if absolute(path) {
        seq![Component::Root]
    } else if path.subrange(0, piece_end(path, 0)) == seq![DOT] {
        seq![Component::Current]
    } else {
        Seq::empty()
    }
}

/// The components of a path.
pub open spec fn components(path: Seq<u8>) -> Seq<Component> {
    lead(path) + body(path, 0)
}

/// The prefix of an absolute path that ends with its `depth`-th component after the
/// root; for the full depth the whole path, as it is written.
pub open spec fn ancestor(path: Seq<u8>, depth: int) -> Seq<u8> {
    let s = spans(path, 0);
    if depth >= s.len() {
        path
    } else if depth <= 0 {
        path.take(1)
    } else {
        path.take(s[depth - 1].1)
    }
}

/// The order of two byte strings: that of the first bytes in which they differ, and a
/// proper prefix before what it is a prefix of.
pub open spec fn bytes_order(a: Seq<u8>, b: Seq<u8>) -> PathOrder
    decreases a.len(),
{
    if a.len() == 0 {
        if b.len() == 0 {
            PathOrder::Same
        } else {
            PathOrder::Before
        }
    } else if b.len() == 0 || a[0] > b[0] {
        PathOrder::After
    } else if a[0] < b[0] {
        PathOrder::Before
    } else {
        bytes_order(a.drop_first(), b.drop_first())
    }
}

/// The place of a component among the four kinds.
pub open spec fn kind_rank(c: Component) -> int {
    match c {
        Component::Root => 0,
        Component::Current => 1,
        Component::Parent => 2,
        Component::Normal(_) => 3,
    }
}

/// The order of two components: by kind, and names by their bytes.
pub open spec fn component_order(a: Component, b: Component) -> PathOrder {
    if kind_rank(a) < kind_rank(b) {
        PathOrder::Before
    } else if kind_rank(a) > kind_rank(b) {
        PathOrder::After
    } else {
        match (a, b) {
            (Component::Normal(x), Component::Normal(y)) => bytes_order(x, y),
            _ => PathOrder::Same,
        }
    }
}

/// The order of two paths, component by component, an ancestor before its descendants.
pub open spec fn path_order(a: Seq<Component>, b: Seq<Component>) -> PathOrder
    decreases a.len(),
{
    if a.len() == 0 {
        if b.len() == 0 {
            PathOrder::Same
        } else {
            PathOrder::Before
        }
    } else if b.len() == 0 {
        PathOrder::After
    } else {
        match component_order(a[0], b[0]) {
            PathOrder::Same => path_order(a.drop_first(), b.drop_first()),
            o => o,
        }
    }
}

/// `a` is an ancestor of `b`, or `b` itself.
pub open spec fn is_prefix(a: Seq<Component>, b: Seq<Component>) -> bool {
    a.len() <= b.len() && a == b.take(a.len() as int)
}

/// The order read from the other side.
pub open spec fn flip(o: PathOrder) -> PathOrder {
    match o {
        PathOrder::Before => PathOrder::After,
        PathOrder::Same => PathOrder::Same,
        PathOrder::After => PathOrder::Before,
    }
}

proof fn lemma_bytes_order(a: Seq<u8>, b: Seq<u8>)
    ensures
        bytes_order(a, b) == PathOrder::Same <==> a == b,
        bytes_order(b, a) == flip(bytes_order(a, b)),
    decreases a.len(),
{
    if a.len() > 0 && b.len() > 0 {
        lemma_bytes_order(a.drop_first(), b.drop_first());
        if a[0] == b[0] && a.drop_first() == b.drop_first() {
            assert(a =~= seq![a[0]] + a.drop_first());
            assert(b =~= seq![b[0]] + b.drop_first());
        }
    } else if a.len() == 0 && b.len() == 0 {
        assert(a =~= b);
    }
}

proof fn lemma_bytes_order_transitive(a: Seq<u8>, b: Seq<u8>, c: Seq<u8>)
    requires
        bytes_order(a, b) == PathOrder::Before,
        bytes_order(b, c) == PathOrder::Before,
    ensures
        bytes_order(a, c) == PathOrder::Before,
    decreases a.len(),
{
    if a.len() > 0 && a[0] == b[0] && b[0] == c[0] {
        lemma_bytes_order_transitive(a.drop_first(), b.drop_first(), c.drop_first());
    }
}

proof fn lemma_component_order(a: Component, b: Component)
    ensures
        component_order(a, b) == PathOrder::Same <==> a == b,
        component_order(b, a) == flip(component_order(a, b)),
{
    if let Component::Normal(x) = a {
        if let Component::Normal(y) = b {
            lemma_bytes_order(x, y);
        }
    }
}

proof fn lemma_component_order_transitive(a: Component, b: Component, c: Component)
    requires
        component_order(a, b) == PathOrder::Before,
        component_order(b, c) == PathOrder::Before,
    ensures
        component_order(a, c) == PathOrder::Before,
{
    if let Component::Normal(x) = a {
        if let Component::Normal(y) = b {
            if let Component::Normal(z) = c {
                lemma_bytes_order_transitive(x, y, z);
            }
        }
    }
}

/// Of two paths exactly one comes first, unless they are the same path.
pub proof fn lemma_path_order(a: Seq<Component>, b: Seq<Component>)
    ensures
        path_order(a, b) == PathOrder::Same <==> a == b,
        path_order(b, a) == flip(path_order(a, b)),
    decreases a.len(),
{
    if a.len() > 0 && b.len() > 0 {
        lemma_component_order(a[0], b[0]);
        lemma_path_order(a.drop_first(), b.drop_first());
        if a[0] == b[0] && a.drop_first() == b.drop_first() {
            assert(a =~= seq![a[0]] + a.drop_first());
            assert(b =~= seq![b[0]] + b.drop_first());
        }
    } else if a.len() == 0 && b.len() == 0 {
        assert(a =~= b);
    }
}

/// What comes before a path comes before all that this path comes before.
pub proof fn lemma_path_order_transitive(
    a: Seq<Component>,
    b: Seq<Component>,
    c: Seq<Component>,
)
    requires
        path_order(a, b) == PathOrder::Before,
        path_order(b, c) == PathOrder::Before,
    ensures
        path_order(a, c) == PathOrder::Before,
    decreases a.len(),
{
    if a.len() > 0 {
        lemma_component_order(a[0], b[0]);
        lemma_component_order(b[0], c[0]);
        if component_order(a[0], b[0]) == PathOrder::Same {
            if component_order(b[0], c[0]) == PathOrder::Same {
                lemma_path_order_transitive(a.drop_first(), b.drop_first(), c.drop_first());
            }
        } else if component_order(b[0], c[0]) != PathOrder::Same {
            lemma_component_order_transitive(a[0], b[0], c[0]);
        }
    }
}

/// A path comes before its descendants.
pub proof fn lemma_path_order_prefix(a: Seq<Component>, b: Seq<Component>)
    requires
        is_prefix(a, b),
        a.len() < b.len(),
    ensures
        path_order(a, b) == PathOrder::Before,
    decreases a.len(),
{
    if a.len() > 0 {
        assert(a[0] == b[0]);
        lemma_component_order(a[0], b[0]);
        assert(a.drop_first() =~= b.drop_first().take(a.len() - 1));
        lemma_path_order_prefix(a.drop_first(), b.drop_first());
    }
}

/// Where `y` does not come before `x`, an ancestor of `x` comes before every ancestor of
/// `y` that it does not lie under.
pub proof fn lemma_path_order_ancestors(
    p: Seq<Component>,
    x: Seq<Component>,
    q: Seq<Component>,
    y: Seq<Component>,
)
    requires
        is_prefix(p, x),
        is_prefix(q, y),
        path_order(x, y) != PathOrder::After,
        !is_prefix(q, p),
    ensures
        path_order(p, q) == PathOrder::Before,
    decreases p.len(),
{
    if q.len() == 0 {
        assert(q =~= p.take(0));
    } else if p.len() > 0 {
        assert(p[0] == x[0]);
        assert(q[0] == y[0]);
        lemma_component_order(x[0], y[0]);
        if x[0] == y[0] {
            assert(p.drop_first() =~= x.drop_first().take(p.len() - 1));
            assert(q.drop_first() =~= y.drop_first().take(q.len() - 1));
            if is_prefix(q.drop_first(), p.drop_first()) {
                assert forall|i: int| 0 <= i < q.len() implies q[i] == p.take(q.len() as int)[i] by {
                    if i > 0 {
                        assert(q[i] == q.drop_first()[i - 1]);
                        assert(q.drop_first()[i - 1] == p.drop_first().take(q.len() - 1)[i - 1]);
                    }
                }
                assert(q =~= p.take(q.len() as int));
            }
            lemma_path_order_ancestors(
                p.drop_first(),
                x.drop_first(),
                q.drop_first(),
                y.drop_first(),
            );
        }
    }
}

/// A piece reaches up to the next slash, or to the end of the path.
pub proof fn lemma_piece_end(path: Seq<u8>, from: int)
    requires
        0 <= from <= path.len(),
    ensures
        from <= piece_end(path, from) <= path.len(),
        piece_end(path, from) < path.len() ==> path[piece_end(path, from)] == SLASH,
        forall|i: int| from <= i < piece_end(path, from) ==> path[i] != SLASH,
    decreases path.len() - from,
{
    if from < path.len() && path[from] != SLASH {
        lemma_piece_end(path, from + 1);
    }
}

/// The spans of a path are in order and lie inside it, and none of them is a filler.
pub proof fn lemma_spans(path: Seq<u8>, from: int)
    requires
        0 <= from <= path.len() + 1,
    ensures
        forall|i: int|
            0 <= i < spans(path, from).len() ==> {
                let s = #[trigger] spans(path, from)[i];
                &&& from <= s.0 < s.1 <= path.len()
                &&& !is_filler(path.subrange(s.0, s.1))
            },
        forall|i: int, j: int|
            0 <= i < j < spans(path, from).len() ==> spans(path, from)[i].1 < spans(
                path,
                from,
            )[j].0,
    decreases path.len() + 1 - from,
{
    if from <= path.len() {
        lemma_piece_end(path, from);
        let end = piece_end(path, from);
        let s = spans(path, from);
        let rest = spans(path, end + 1);
        lemma_spans(path, end + 1);
        if !is_filler(path.subrange(from, end)) {
            assert(s == seq![(from, end)] + rest);
            assert forall|i: int| 0 <= i < s.len() implies {
                &&& from <= (#[trigger] s[i]).0 < s[i].1 <= path.len()
                &&& !is_filler(path.subrange(s[i].0, s[i].1))
            } by {
                if i > 0 {
                    assert(s[i] == rest[i - 1]);
                }
            }
            assert forall|i: int, j: int| 0 <= i < j < s.len() implies s[i].1 < s[j].0 by {
                assert(s[j] == rest[j - 1]);
                if i > 0 {
                    assert(s[i] == rest[i - 1]);
                }
            }
        }
    }
}

/// The components from `from` on, by the first piece and those behind it.
proof fn lemma_body_step(path: Seq<u8>, from: int)
    requires
        0 <= from <= path.len(),
    ensures
        ({
            let end = piece_end(path, from);
            let piece = path.subrange(from, end);
            body(path, from) == if is_filler(piece) {
                body(path, end + 1)
            } else {
                seq![component(piece)] + body(path, end + 1)
            }
        }),
{
    let end = piece_end(path, from);
    let piece = path.subrange(from, end);
    let rest = spans(path, end + 1);
    if is_filler(piece) {
    } else {
        let s = spans(path, from);
        assert(s == seq![(from, end)] + rest);
        assert forall|i: int| 0 <= i < s.len() implies body(path, from)[i] == (seq![
            component(piece),
        ] + body(path, end + 1))[i] by {
            if i > 0 {
                assert(s[i] == rest[i - 1]);
            }
        }
        assert(body(path, from) =~= seq![component(piece)] + body(path, end + 1));
    }
}

/// What a file can be called: not empty, neither `.` nor `..`, and with no slash in it.
pub open spec fn is_name(name: Seq<u8>) -> bool {
    &&& name.len() > 0
    &&& name != seq![DOT]
    &&& name != seq![DOT, DOT]
    &&& !name.contains(SLASH)
}

proof fn lemma_body_names(path: Seq<u8>, from: int)
    requires
        0 <= from <= path.len() + 1,
    ensures
        forall|i: int|
            0 <= i < body(path, from).len() ==> match #[trigger] body(path, from)[i] {
                Component::Normal(name) => is_name(name),
                _ => true,
            },
    decreases path.len() + 1 - from,
{
    if from <= path.len() {
        lemma_piece_end(path, from);
        lemma_body_step(path, from);
        let end = piece_end(path, from);
        lemma_body_names(path, end + 1);
        assert forall|i: int| 0 <= i < body(path, from).len() implies match #[trigger] body(
            path,
            from,
        )[i] {
            Component::Normal(name) => is_name(name),
            _ => true,
        } by {
            if !is_filler(path.subrange(from, end)) && i > 0 {
                assert(body(path, from)[i] == body(path, end + 1)[i - 1]);
            }
        }
    }
}

/// Every component of a path is one of the special ones or a name that a file can have.
pub proof fn law_components_are_names(path: Seq<u8>, i: int)
    requires
        0 <= i < components(path).len(),
    ensures
        match components(path)[i] {
            Component::Normal(name) => is_name(name),
            _ => true,
        },
{
    lemma_body_names(path, 0);
    if i >= lead(path).len() {
        assert(components(path)[i] == body(path, 0)[i - lead(path).len()]);
    }
}

proof fn lemma_piece_end_cut(path: Seq<u8>, from: int, cut: int)
    requires
        0 <= from <= cut <= path.len(),
    ensures
        piece_end(path.take(cut), from) == if piece_end(path, from) <= cut {
            piece_end(path, from)
        } else {
            cut
        },
    decreases cut - from,
{
    if from < cut && path[from] != SLASH {
        lemma_piece_end_cut(path, from + 1, cut);
    }
    lemma_piece_end(path, from);
}

/// Cutting a path behind its `k`-th span keeps the spans up to that one.
proof fn lemma_spans_cut(path: Seq<u8>, from: int, k: int)
    requires
        0 <= from <= path.len(),
        0 <= k < spans(path, from).len(),
    ensures
        spans(path.take(spans(path, from)[k].1), from) == spans(path, from).take(k + 1),
    decreases path.len() + 1 - from,
{
    let s = spans(path, from);
    let cut = s[k].1;
    let q = path.take(cut);
    let end = piece_end(path, from);
    let rest = spans(path, end + 1);
    lemma_spans(path, from);
    lemma_piece_end(path, from);
    lemma_piece_end_cut(path, from, cut);
    lemma_spans(path, end + 1);
    if is_filler(path.subrange(from, end)) {
        assert(cut > end);
        assert(q.subrange(from, end) =~= path.subrange(from, end));
        lemma_spans_cut(path, end + 1, k);
    } else {
        if k == 0 {
            assert(q.subrange(from, end) =~= path.subrange(from, end));
            assert(spans(q, end + 1) =~= Seq::empty());
            assert(spans(q, from) =~= s.take(1));
        } else {
            assert(s[k] == rest[k - 1]);
            assert(q.subrange(from, end) =~= path.subrange(from, end));
            lemma_spans_cut(path, end + 1, k - 1);
            assert(spans(q, from) =~= s.take(k + 1));
        }
    }
}

/// The prefix of an absolute path down to a depth has the path's components down to
/// that depth.
pub proof fn lemma_ancestor(path: Seq<u8>, depth: int)
    requires
        absolute(path),
        0 <= depth <= spans(path, 0).len(),
    ensures
        absolute(ancestor(path, depth)),
        components(ancestor(path, depth)) == components(path).take(depth + 1),
        ancestor(path, depth).len() <= path.len(),
        ancestor(path, depth) == path.take(ancestor(path, depth).len() as int),
{
    let s = spans(path, 0);
    let q = ancestor(path, depth);
    lemma_spans(path, 0);
    assert(path.take(path.len() as int) =~= path);
    if depth == s.len() {
        assert(components(path).take(depth + 1) =~= components(path));
    } else if depth == 0 {
        assert(q =~= seq![SLASH]);
        reveal_with_fuel(spans, 3);
        assert(piece_end(q, 0) == 0);
        assert(piece_end(q, 1) == 1);
        assert(q.subrange(0, 0) =~= Seq::empty());
        assert(q.subrange(1, 1) =~= Seq::empty());
        assert(spans(q, 0) =~= Seq::empty());
        assert(components(q) =~= components(path).take(1));
    } else {
        lemma_spans_cut(path, 0, depth - 1);
        let t = spans(q, 0);
        assert(t == s.take(depth));
        assert forall|i: int| 0 <= i < depth implies body(q, 0)[i] == body(path, 0)[i] by {
            assert(t[i] == s[i]);
            assert(s[i].1 <= s[depth - 1].1);
            assert(q.subrange(t[i].0, t[i].1) =~= path.subrange(s[i].0, s[i].1));
        }
        assert(components(q) =~= components(path).take(depth + 1));
    }
}

/// Nothing follows the end of a path.
proof fn lemma_spans_end(path: Seq<u8>)
    ensures
        spans(path, path.len() as int) == Seq::<(int, int)>::empty(),
{
    assert(spans(path, path.len() as int + 1) == Seq::<(int, int)>::empty());
    assert(path.subrange(path.len() as int, path.len() as int) =~= Seq::empty());
}

/// The first component from `from` on, by its span.
proof fn lemma_body_first(path: Seq<u8>, from: int, start: int, end: int)
    requires
        0 <= from <= path.len(),
        spans(path, from) == seq![(start, end)] + spans(path, end + 1),
    ensures
        body(path, from) == seq![component(path.subrange(start, end))] + body(path, end + 1),
{
    let s = spans(path, from);
    let rest = spans(path, end + 1);
    assert forall|i: int| 0 <= i < s.len() implies #[trigger] body(path, from)[i] == (seq![
        component(path.subrange(start, end)),
    ] + body(path, end + 1))[i] by {
        if i > 0 {
            assert(s[i] == rest[i - 1]);
        }
    }
    assert(body(path, from) =~= seq![component(path.subrange(start, end))] + body(path, end + 1));
}

/// Whether the path starts at the root.
pub fn is_absolute(path: &[u8]) -> (r: bool)
    ensures
        r == absolute(path@),
{
    path.len() > 0 && path[0] == SLASH
}

fn find_piece_end(path: &[u8], from: usize) -> (end: usize)
    requires
        from <= path@.len(),
    ensures
        end == piece_end(path@, from as int),
        from <= end <= path@.len(),
{
    let mut end: usize = from;
    proof {
        lemma_piece_end(path@, from as int);
    }
    while end < path.len() && path[end] != SLASH
        invariant
            from <= end <= path@.len(),
            piece_end(path@, end as int) == piece_end(path@, from as int),
        decreases path@.len() - end,
    {
        end = end + 1;
    }
    end
}

/// Where the next component lies, from index `from` of the path on.
fn next_span(path: &[u8], from: usize) -> (r: Option<(usize, usize)>)
    requires
        from <= path@.len(),
    ensures
        match r {
            None => spans(path@, from as int).len() == 0,
            Some(s) => {
                &&& from <= s.0 < s.1 <= path@.len()
                &&& spans(path@, from as int) == seq![(s.0 as int, s.1 as int)] + spans(
                    path@,
                    s.1 + 1,
                )
            },
        },
{
    let mut start: usize = from;
    loop
        invariant
            from <= start <= path@.len(),
            spans(path@, start as int) == spans(path@, from as int),
        decreases path@.len() - start,
    {
        let end = find_piece_end(path, start);
        if end > start && !(end - start == 1 && path[start] == DOT) {
            proof {
                let piece = path@.subrange(start as int, end as int);
                if piece == seq![DOT] {
                    assert(piece[0] == path@[start as int]);
                    assert(piece.len() == 1);
                }
            }
            return Some((start, end));
        }
        proof {
            let piece = path@.subrange(start as int, end as int);
            if piece.len() != 0 {
                assert(piece =~= seq![DOT]);
            }
        }
        if end >= path.len() {
            assert(spans(path@, end + 1).len() == 0);
            return None;
        }
        start = end + 1;
    }
}

/// Where the components after the leading one lie.
pub fn component_spans(path: &[u8]) -> (r: Vec<(usize, usize)>)
    ensures
        r@.len() == spans(path@, 0).len(),
        forall|i: int|
            0 <= i < r@.len() ==> (#[trigger] r@[i]).0 == spans(path@, 0)[i].0 && r@[i].1 == spans(
                path@,
                0,
            )[i].1,
{
    let mut r: Vec<(usize, usize)> = Vec::new();
    let mut from: usize = 0;
    let ghost all = spans(path@, 0);
    assert(all =~= all.skip(0));
    loop
        invariant
            from <= path@.len(),
            all == spans(path@, 0),
            r@.len() <= all.len(),
            spans(path@, from as int) == all.skip(r@.len() as int),
            forall|i: int|
                0 <= i < r@.len() ==> (#[trigger] r@[i]).0 == all[i].0 && r@[i].1 == all[i].1,
        decreases all.len() - r@.len(),
    {
        match next_span(path, from) {
            None => {
                return r;
            },
            Some(s) => {
                proof {
                    let rest = all.skip(r@.len() as int);
                    assert(rest[0] == (s.0 as int, s.1 as int));
                    assert(rest.len() > 0);
                    assert(rest[0] == all[r@.len() as int]);
                    assert(spans(path@, s.1 + 1) =~= rest.drop_first());
                    assert(rest.drop_first() =~= all.skip(r@.len() as int + 1));
                    lemma_spans_end(path@);
                }
                r.push(s);
                from = after_span(path, s.1);
            },
        }
    }
}

/// Where to look for the component behind one that ends at `end`.
fn after_span(path: &[u8], end: usize) -> (from: usize)
    requires
        end <= path@.len(),
    ensures
        end <= from <= path@.len(),
        spans(path@, from as int) == spans(path@, end + 1),
{
    if end < path.len() {
        end + 1
    } else {
        proof {
            lemma_spans_end(path@);
        }
        end
    }
}

/// The order of two byte strings.
pub fn compare_bytes(a: &[u8], b: &[u8]) -> (r: PathOrder)
    ensures
        r == bytes_order(a@, b@),
{
    let mut i: usize = 0;
    assert(a@.skip(0) =~= a@);
    assert(b@.skip(0) =~= b@);
    while i < a.len() && i < b.len()
        invariant
            i <= a@.len(),
            i <= b@.len(),
            bytes_order(a@.skip(i as int), b@.skip(i as int)) == bytes_order(a@, b@),
        decreases a@.len() - i,
    {
        if a[i] < b[i] {
            return PathOrder::Before;
        }
        if a[i] > b[i] {
            return PathOrder::After;
        }
        assert(a@.skip(i as int).drop_first() =~= a@.skip(i + 1));
        assert(b@.skip(i as int).drop_first() =~= b@.skip(i + 1));
        i = i + 1;
    }
    if i < b.len() {
        PathOrder::Before
    } else if i < a.len() {
        PathOrder::After
    } else {
        PathOrder::Same
    }
}

fn is_parent_piece(piece: &[u8]) -> (r: bool)
    ensures
        r == (component(piece@) is Parent),
{
    let r = piece.len() == 2 && piece[0] == DOT && piece[1] == DOT;
    proof {
        if r {
            assert(piece@ =~= seq![DOT, DOT]);
        } else if piece@ == seq![DOT, DOT] {
            assert(piece@[0] == DOT && piece@[1] == DOT);
        }
    }
    r
}

fn compare_pieces(a: &[u8], b: &[u8]) -> (r: PathOrder)
    ensures
        r == component_order(component(a@), component(b@)),
{
    let pa = is_parent_piece(a);
    let pb = is_parent_piece(b);
    if pa {
        if pb {
            PathOrder::Same
        } else {
            PathOrder::Before
        }
    } else if pb {
        PathOrder::After
    } else {
        compare_bytes(a, b)
    }
}

/// The order of two paths by what follows their leading components.
fn compare_bodies(a: &[u8], b: &[u8]) -> (r: PathOrder)
    ensures
        r == path_order(body(a@, 0), body(b@, 0)),
{
    let mut i: usize = 0;
    let mut j: usize = 0;
    loop
        invariant
            i <= a@.len(),
            j <= b@.len(),
            path_order(body(a@, i as int), body(b@, j as int)) == path_order(
                body(a@, 0),
                body(b@, 0),
            ),
        decreases a@.len() - i,
    {
        match (next_span(a, i), next_span(b, j)) {
            (None, None) => {
                return PathOrder::Same;
            },
            (None, Some(_)) => {
                return PathOrder::Before;
            },
            (Some(_), None) => {
                return PathOrder::After;
            },
            (Some(s), Some(t)) => {
                proof {
                    lemma_body_first(a@, i as int, s.0 as int, s.1 as int);
                    lemma_body_first(b@, j as int, t.0 as int, t.1 as int);
                }
                let o = compare_pieces(
                    slice_subrange(a, s.0, s.1),
                    slice_subrange(b, t.0, t.1),
                );
                if o != PathOrder::Same {
                    return o;
                }
                assert(body(a@, i as int).drop_first() =~= body(a@, s.1 + 1));
                assert(body(b@, j as int).drop_first() =~= body(b@, t.1 + 1));
                i = after_span(a, s.1);
                j = after_span(b, t.1);
            },
        }
    }
}

/// The leading component of a path, if it has one.
#[derive(Clone, Copy, PartialEq, Eq, Structural)]
enum Lead {
    Root,
    Current,
    Nothing,
}

spec fn lead_components(l: Lead) -> Seq<Component> {
    match l {
        Lead::Root => seq![Component::Root],
        Lead::Current => seq![Component::Current],
        Lead::Nothing => Seq::empty(),
    }
}

fn find_lead(path: &[u8]) -> (r: Lead)
    ensures
        lead(path@) == lead_components(r),
{
    let end = find_piece_end(path, 0);
    let ghost piece = path@.subrange(0, end as int);
    if is_absolute(path) {
        Lead::Root
    } else if end == 1 && path[0] == DOT {
        assert(piece =~= seq![DOT]);
        Lead::Current
    } else {
        proof {
            if piece == seq![DOT] {
                assert(piece.len() == 1);
                assert(piece[0] == path@[0]);
            }
        }
        Lead::Nothing
    }
}

/// The order of two paths.
pub fn compare(a: &[u8], b: &[u8]) -> (r: PathOrder)
    ensures
        r == path_order(components(a@), components(b@)),
{
    let la = find_lead(a);
    let lb = find_lead(b);
    let ghost ca = components(a@);
    let ghost cb = components(b@);
    proof {
        if la == Lead::Nothing {
            assert(ca =~= body(a@, 0));
        } else {
            assert(ca.drop_first() =~= body(a@, 0));
        }
        if lb == Lead::Nothing {
            assert(cb =~= body(b@, 0));
        } else {
            assert(cb.drop_first() =~= body(b@, 0));
        }
    }
    if la == lb {
        compare_bodies(a, b)
    } else if la == Lead::Nothing {
        if next_span(a, 0).is_some() {
            PathOrder::After
        } else {
            PathOrder::Before
        }
    } else if lb == Lead::Nothing {
        if next_span(b, 0).is_some() {
            PathOrder::Before
        } else {
            PathOrder::After
        }
    } else if la == Lead::Root {
        PathOrder::Before
    } else {
        PathOrder::After
    }
}

/// The path has a `..` among its components.
pub open spec fn has_parent(path: Seq<u8>) -> bool {
    components(path).contains(Component::Parent)
}

/// Whether the path has a `..` among its components.
pub fn has_parent_component(path: &[u8]) -> (r: bool)
    ensures
        r == has_parent(path@),
{
    let s = component_spans(path);
    let ghost b = body(path@, 0);
    let ghost c = components(path@);
    let ghost lead_len = lead(path@).len() as int;
    proof {
        lemma_spans(path@, 0);
    }
    let mut i: usize = 0;
    while i < s.len()
        invariant
            i <= s@.len(),
            b == body(path@, 0),
            s@.len() == b.len(),
            c == lead(path@) + b,
            c == components(path@),
            lead_len == lead(path@).len(),
            forall|k: int|
                0 <= k < s@.len() ==> {
                    &&& (#[trigger] s@[k]).0 == spans(path@, 0)[k].0
                    &&& s@[k].1 == spans(path@, 0)[k].1
                    &&& s@[k].0 <= s@[k].1 <= path@.len()
                },
            forall|k: int| 0 <= k < i ==> b[k] != Component::Parent,
        decreases s@.len() - i,
    {
        let piece = slice_subrange(path, s[i].0, s[i].1);
        assert(b[i as int] == component(piece@));
        if is_parent_piece(piece) {
            assert(c[lead_len + i] == Component::Parent);
            return true;
        }
        i = i + 1;
    }
    proof {
        if c.contains(Component::Parent) {
            let k = choose|k: int| 0 <= k < c.len() && c[k] == Component::Parent;
            if k >= lead_len {
                assert(b[k - lead_len] == Component::Parent);
            }
        }
    }
    false
}

/// A slash and a piece behind a path leave the pieces in front as they are.
proof fn lemma_spans_of_longer(d: Seq<u8>, piece: Seq<u8>, from: int)
    requires
        !piece.contains(SLASH),
        0 <= from <= d.len(),
    ensures
        piece_end(d + seq![SLASH] + piece, from) == piece_end(d, from),
        spans(d + seq![SLASH] + piece, from) == spans(d, from) + if is_filler(piece) {
            Seq::<(int, int)>::empty()
        } else {
            seq![(d.len() as int + 1, d.len() as int + 1 + piece.len() as int)]
        },
    decreases d.len() + 1 - from,
{
    let p = d + seq![SLASH] + piece;
    let at = d.len() as int + 1;
    let tail = if is_filler(piece) {
        Seq::<(int, int)>::empty()
    } else {
        seq![(at, at + piece.len() as int)]
    };
    lemma_piece_end(d, from);
    lemma_piece_end(p, from);
    let end = piece_end(d, from);
    assert(p[d.len() as int] == SLASH);
    assert(forall|i: int| 0 <= i < d.len() ==> p[i] == d[i]);
    assert(piece_end(p, from) == end);
    assert(p.subrange(from, end) =~= d.subrange(from, end));
    if end < d.len() {
        lemma_spans_of_longer(d, piece, end + 1);
    } else {
        lemma_piece_end(p, at);
        assert forall|i: int| at <= i < p.len() implies p[i] != SLASH by {
            assert(p[i] == piece[i - at]);
        }
        assert(piece_end(p, at) == p.len());
        assert(p.subrange(at, p.len() as int) =~= piece);
        assert(spans(p, p.len() as int + 1) =~= Seq::empty());
        assert(spans(d, end + 1) =~= Seq::empty());
        assert(spans(p, at) =~= tail);
    }
    assert(spans(p, from) =~= spans(d, from) + tail);
}

/// A piece that stands alone, or behind one slash.
proof fn lemma_spans_of_piece(piece: Seq<u8>)
    requires
        !piece.contains(SLASH),
    ensures
        piece_end(piece, 0) == piece.len(),
        spans(piece, 0) == if is_filler(piece) {
            Seq::<(int, int)>::empty()
        } else {
            seq![(0int, piece.len() as int)]
        },
{
    lemma_piece_end(piece, 0);
    if piece_end(piece, 0) < piece.len() {
        assert(piece.contains(piece[piece_end(piece, 0)]));
    }
    assert(piece.subrange(0, piece.len() as int) =~= piece);
    assert(spans(piece, piece.len() as int + 1) =~= Seq::empty());
    let want = if is_filler(piece) {
        Seq::<(int, int)>::empty()
    } else {
        seq![(0int, piece.len() as int)]
    };
    assert(spans(piece, 0) =~= want);
}

/// A path that goes on with a slash and a piece has the components that it had, as they
/// were, and then the one that the piece stands for: none for nothing and for a single dot,
/// the parent for two dots, and else a name, which is the piece byte for byte.
pub proof fn law_a_piece_adds_its_component(d: Seq<u8>, piece: Seq<u8>)
    requires
        d.len() > 0,
        !piece.contains(SLASH),
    ensures
        components(d + seq![SLASH] + piece) == if piece.len() == 0 || piece == seq![DOT] {
            components(d)
        } else if piece == seq![DOT, DOT] {
            components(d).push(Component::Parent)
        } else {
            components(d).push(Component::Normal(piece))
        },
{
    let p = d + seq![SLASH] + piece;
    lemma_spans_of_longer(d, piece, 0);
    lemma_spans(d, 0);
    lemma_piece_end(d, 0);
    assert(p[0] == d[0]);
    assert(p.subrange(0, piece_end(d, 0)) =~= d.subrange(0, piece_end(d, 0)));
    assert(lead(p) == lead(d));
    let s = spans(d, 0);
    assert forall|i: int| 0 <= i < s.len() implies #[trigger] body(p, 0)[i] == body(d, 0)[i] by {
        assert(spans(p, 0)[i] == s[i]);
        assert(p.subrange(s[i].0, s[i].1) =~= d.subrange(s[i].0, s[i].1));
    }
    if is_filler(piece) {
        assert(components(p) =~= components(d));
    } else {
        let at = d.len() as int + 1;
        assert(p.subrange(at, at + piece.len() as int) =~= piece);
        assert(spans(p, 0)[s.len() as int] == (at, at + piece.len() as int));
        assert(components(p) =~= components(d).push(component(piece)));
    }
}

/// The component of a path that is a single piece.
pub proof fn law_single_piece_is_its_component(piece: Seq<u8>)
    requires
        !piece.contains(SLASH),
    ensures
        components(piece) == if piece.len() == 0 {
            Seq::<Component>::empty()
        } else if piece == seq![DOT] {
            seq![Component::Current]
        } else if piece == seq![DOT, DOT] {
            seq![Component::Parent]
        } else {
            seq![Component::Normal(piece)]
        },
{
    lemma_spans_of_piece(piece);
    assert(piece.subrange(0, piece.len() as int) =~= piece);
    if piece.len() > 0 {
        assert(piece.contains(piece[0]));
    }
    let want = if piece.len() == 0 {
        Seq::<Component>::empty()
    } else if piece == seq![DOT] {
        seq![Component::Current]
    } else if piece == seq![DOT, DOT] {
        seq![Component::Parent]
    } else {
        seq![Component::Normal(piece)]
    };
    assert(components(piece) =~= want);
}

/// The components of a path that is a slash and a piece: the root, and what the piece
/// stands for.
pub proof fn law_piece_below_the_root(piece: Seq<u8>)
    requires
        !piece.contains(SLASH),
    ensures
        components(seq![SLASH] + piece) == if piece.len() == 0 || piece == seq![DOT] {
            seq![Component::Root]
        } else if piece == seq![DOT, DOT] {
            seq![Component::Root, Component::Parent]
        } else {
            seq![Component::Root, Component::Normal(piece)]
        },
{
    let empty = Seq::<u8>::empty();
    let p = seq![SLASH] + piece;
    assert(empty + seq![SLASH] + piece =~= p);
    lemma_spans_of_longer(empty, piece, 0);
    assert(!empty.contains(SLASH));
    lemma_spans_of_piece(empty);
    assert(p.subrange(1, 1 + piece.len() as int) =~= piece);
    let want = if piece.len() == 0 || piece == seq![DOT] {
        seq![Component::Root]
    } else if piece == seq![DOT, DOT] {
        seq![Component::Root, Component::Parent]
    } else {
        seq![Component::Root, Component::Normal(piece)]
    };
    assert(components(p) =~= want);
}

/// The path of a file that is reached from the root by these names, each behind a slash.
pub open spec fn path_of(names: Seq<Seq<u8>>) -> Seq<u8>
    decreases names.len(),
{
    if names.len() == 0 {
        Seq::empty()
    } else {
        path_of(names.drop_last()) + seq![SLASH] + names.last()
    }
}

/// Names that files can have come out of a path as they went in: the components are the root
/// and each name, byte for byte and in order.
pub proof fn law_names_come_out_of_a_path(names: Seq<Seq<u8>>)
    requires
        names.len() > 0,
        forall|i: int|
            0 <= i < names.len() ==> (#[trigger] names[i]).len() > 0 && names[i] != seq![DOT]
                && names[i] != seq![DOT, DOT] && !names[i].contains(SLASH),
    ensures
        absolute(path_of(names)),
        components(path_of(names)).len() == names.len() + 1,
        components(path_of(names))[0] == Component::Root,
        forall|i: int|
            0 <= i < names.len() ==> components(path_of(names))[i + 1] == Component::Normal(
                #[trigger] names[i],
            ),
    decreases names.len(),
{
    let up = names.drop_last();
    let last = names.last();
    assert(last == names[names.len() - 1]);
    if names.len() == 1 {
        assert(path_of(up) =~= Seq::empty());
        assert(path_of(names) =~= seq![SLASH] + last);
        law_piece_below_the_root(last);
    } else {
        assert forall|i: int| 0 <= i < up.len() implies (#[trigger] up[i]).len() > 0 && up[i]
            != seq![DOT] && up[i] != seq![DOT, DOT] && !up[i].contains(SLASH) by {
            assert(up[i] == names[i]);
        }
        law_names_come_out_of_a_path(up);
        law_a_piece_adds_its_component(path_of(up), last);
        let c = components(path_of(names));
        assert(c == components(path_of(up)).push(Component::Normal(last)));
        assert forall|i: int| 0 <= i < names.len() implies c[i + 1] == Component::Normal(
            #[trigger] names[i],
        ) by {
            if i < up.len() {
                assert(up[i] == names[i]);
            }
        }
        assert(path_of(names)[0] == path_of(up)[0]);
    }
}

/// Paths of files that differ in any byte of any name are different paths.
pub proof fn law_different_names_are_different_paths(a: Seq<Seq<u8>>, b: Seq<Seq<u8>>)
    requires
        a.len() > 0,
        b.len() > 0,
        forall|i: int|
            0 <= i < a.len() ==> (#[trigger] a[i]).len() > 0 && a[i] != seq![DOT] && a[i] != seq![
                DOT,
                DOT,
            ] && !a[i].contains(SLASH),
        forall|i: int|
            0 <= i < b.len() ==> (#[trigger] b[i]).len() > 0 && b[i] != seq![DOT] && b[i] != seq![
                DOT,
                DOT,
            ] && !b[i].contains(SLASH),
        components(path_of(a)) == components(path_of(b)),
    ensures
        a == b,
{
    law_names_come_out_of_a_path(a);
    law_names_come_out_of_a_path(b);
    assert forall|i: int| 0 <= i < a.len() implies a[i] == b[i] by {
        let c = components(path_of(a))[i + 1];
        assert(c == Component::Normal(a[i]));
        assert(c == Component::Normal(b[i]));
    }
    assert(a =~= b);
}

/// A path that starts with a slash is absolute, and no other is.
pub proof fn law_absolute_paths_start_with_a_slash(rest: Seq<u8>, first: u8)
    ensures
        absolute(seq![first] + rest) <==> first == SLASH,
        !absolute(Seq::<u8>::empty()),
{
}

/// Byte strings that agree up to an index are ordered by the bytes there, as unsigned
/// numbers; where one ends there, it comes first.
pub proof fn law_first_difference_orders_bytes(a: Seq<u8>, b: Seq<u8>, k: int)
    requires
        0 <= k <= a.len(),
        k <= b.len(),
        a.take(k) == b.take(k),
    ensures
        k < a.len() && k < b.len() && a[k] < b[k] ==> bytes_order(a, b) == PathOrder::Before
            && bytes_order(b, a) == PathOrder::After,
        k == a.len() && k < b.len() ==> bytes_order(a, b) == PathOrder::Before && bytes_order(b, a)
            == PathOrder::After,
        k == a.len() && k == b.len() ==> bytes_order(a, b) == PathOrder::Same,
    decreases k,
{
    if k > 0 {
        assert(a[0] == a.take(k)[0] && b[0] == b.take(k)[0]);
        let x = a.drop_first();
        let y = b.drop_first();
        assert forall|i: int| 0 <= i < k - 1 implies x[i] == y[i] by {
            assert(a.take(k)[i + 1] == a[i + 1]);
            assert(b.take(k)[i + 1] == b[i + 1]);
        }
        assert(x.take(k - 1) =~= y.take(k - 1));
        law_first_difference_orders_bytes(x, y, k - 1);
    }
}

/// Paths that agree up to a component are ordered by the components there: the root before
/// a leading dot, that before the parent, that before a name, and names by their bytes. Where
/// one path ends there, it comes first.
pub proof fn law_first_difference_orders_paths(a: Seq<Component>, b: Seq<Component>, k: int)
    requires
        0 <= k <= a.len(),
        k <= b.len(),
        a.take(k) == b.take(k),
    ensures
        k == a.len() && k < b.len() ==> path_order(a, b) == PathOrder::Before,
        k < a.len() && k == b.len() ==> path_order(a, b) == PathOrder::After,
        k == a.len() && k == b.len() ==> path_order(a, b) == PathOrder::Same,
        k < a.len() && k < b.len() ==> match (a[k], b[k]) {
            (Component::Root, Component::Root) => true,
            (Component::Root, _) => path_order(a, b) == PathOrder::Before,
            (_, Component::Root) => path_order(a, b) == PathOrder::After,
            (Component::Current, Component::Current) => true,
            (Component::Current, _) => path_order(a, b) == PathOrder::Before,
            (_, Component::Current) => path_order(a, b) == PathOrder::After,
            (Component::Parent, Component::Parent) => true,
            (Component::Parent, _) => path_order(a, b) == PathOrder::Before,
            (_, Component::Parent) => path_order(a, b) == PathOrder::After,
            (Component::Normal(x), Component::Normal(y)) => x != y ==> path_order(a, b)
                == bytes_order(x, y),
        },
    decreases k,
{
    if k > 0 {
        assert(a[0] == a.take(k)[0] && b[0] == b.take(k)[0]);
        lemma_component_order(a[0], b[0]);
        let x = a.drop_first();
        let y = b.drop_first();
        assert forall|i: int| 0 <= i < k - 1 implies x[i] == y[i] by {
            assert(a.take(k)[i + 1] == a[i + 1]);
            assert(b.take(k)[i + 1] == b[i + 1]);
        }
        assert(x.take(k - 1) =~= y.take(k - 1));
        law_first_difference_orders_paths(x, y, k - 1);
    } else if a.len() > 0 && b.len() > 0 {
        lemma_component_order(a[0], b[0]);
    }
}

/// The pieces of a path that goes on with a slash and a piece: those that it had, and the
/// new one, unless that is empty or a single dot.
pub proof fn law_a_piece_adds_its_span(d: Seq<u8>, piece: Seq<u8>)
    requires
        !piece.contains(SLASH),
    ensures
        spans(d + seq![SLASH] + piece, 0) == if piece.len() == 0 || piece == seq![DOT] {
            spans(d, 0)
        } else {
            spans(d, 0).push((d.len() as int + 1, d.len() as int + 1 + piece.len() as int))
        },
        spans(piece, 0) == if piece.len() == 0 || piece == seq![DOT] {
            Seq::<(int, int)>::empty()
        } else {
            seq![(0int, piece.len() as int)]
        },
{
    lemma_spans_of_longer(d, piece, 0);
    lemma_spans_of_piece(piece);
    assert(spans(d, 0) + Seq::<(int, int)>::empty() =~= spans(d, 0));
    assert(spans(d, 0) + seq![(d.len() as int + 1, d.len() as int + 1 + piece.len() as int)]
        =~= spans(d, 0).push((d.len() as int + 1, d.len() as int + 1 + piece.len() as int)));
}

/// A path has a parent component just where one of the pieces between its slashes is two
/// dots.
pub proof fn law_parent_component_is_two_dots(d: Seq<u8>, piece: Seq<u8>)
    requires
        d.len() > 0,
        !piece.contains(SLASH),
    ensures
        has_parent(d + seq![SLASH] + piece) <==> has_parent(d) || piece == seq![DOT, DOT],
        has_parent(piece) <==> piece == seq![DOT, DOT],
        has_parent(seq![SLASH] + piece) <==> piece == seq![DOT, DOT],
{
    law_a_piece_adds_its_component(d, piece);
    law_single_piece_is_its_component(piece);
    law_piece_below_the_root(piece);
    let c = components(d + seq![SLASH] + piece);
    let up = components(d);
    assert(up.len() <= c.len());
    if up.contains(Component::Parent) {
        let i = choose|i: int| 0 <= i < up.len() && up[i] == Component::Parent;
        assert(c[i] == Component::Parent);
    }
    if c.contains(Component::Parent) {
        let i = choose|i: int| 0 <= i < c.len() && c[i] == Component::Parent;
        if i < up.len() {
            assert(up[i] == Component::Parent);
        }
    }
    if piece == seq![DOT, DOT] {
        assert(c[up.len() as int] == Component::Parent);
        assert(components(piece)[0] == Component::Parent);
        assert(components(seq![SLASH] + piece)[1] == Component::Parent);
    }
}

/// The way to a file, up to some depth, is written as in the path of the file: it is a part
/// of that from its start, and at full depth all of it. It ends with the name that it leads
/// to, the root aside.
pub proof fn law_ancestor_is_written_as_in_the_path(path: Seq<u8>, depth: int)
    requires
        absolute(path),
        0 <= depth < components(path).len(),
    ensures
        ancestor(path, depth).is_prefix_of(path),
        components(ancestor(path, depth)) == components(path).take(depth + 1),
        depth == components(path).len() - 1 ==> ancestor(path, depth) == path,
        0 < depth < components(path).len() - 1 ==> match components(path)[depth] {
            Component::Normal(name) => name.is_suffix_of(ancestor(path, depth)),
            _ => true,
        },
        depth == 0 && components(path).len() > 1 ==> ancestor(path, depth) == seq![SLASH],
{
    let s = spans(path, 0);
    lemma_spans(path, 0);
    assert(components(path).len() == s.len() + 1);
    lemma_ancestor(path, depth);
    if 0 < depth < s.len() {
        let q = ancestor(path, depth);
        let (from, to) = s[depth - 1];
        assert(components(path)[depth] == component(path.subrange(from, to)));
        assert(q.subrange(from, to) =~= path.subrange(from, to));
    }
    if depth == 0 && s.len() > 0 {
        assert(path.take(1) =~= seq![SLASH]);
    }
}

} // verus!
