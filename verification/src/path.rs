//! Paths as text: their normal form, the order in which paths are kept,
//! and joining.
//!
//! A path is held as its text, with `/` between its components.  Paths are
//! ordered as `std::path::Path` orders them: component by component, the
//! root first, then a leading `.`, then `..`, then names, names by their
//! characters.
use vstd::prelude::*;
use vstd::string::*;

verus! {

/// `a < b` comparing characters by code point, from index `i` on.
pub open spec fn name_lt_from(a: Seq<char>, b: Seq<char>, i: nat) -> bool
    decreases a.len() - i,
{
    if i >= a.len() {
        i < b.len()
    } else if i >= b.len() {
        false
    } else if a[i as int] != b[i as int] {
        (a[i as int] as int) < (b[i as int] as int)
    } else {
        name_lt_from(a, b, i + 1)
    }
}

/// `a < b` comparing characters by code point.
pub open spec fn name_lt(a: Seq<char>, b: Seq<char>) -> bool {
    name_lt_from(a, b, 0)
}

proof fn lemma_name_lt_from_irreflexive(a: Seq<char>, i: nat)
    ensures
        !name_lt_from(a, a, i),
    decreases a.len() - i,
{
    if i < a.len() {
        lemma_name_lt_from_irreflexive(a, i + 1);
    }
}

proof fn lemma_name_lt_from_transitive(a: Seq<char>, b: Seq<char>, c: Seq<char>, i: nat)
    requires
        name_lt_from(a, b, i),
        name_lt_from(b, c, i),
    ensures
        name_lt_from(a, c, i),
    decreases a.len() - i,
{
    if i < a.len() && i < b.len() && i < c.len() {
        if a[i as int] == b[i as int] && b[i as int] == c[i as int] {
            lemma_name_lt_from_transitive(a, b, c, i + 1);
        }
    }
}

proof fn lemma_name_lt_from_total(a: Seq<char>, b: Seq<char>, i: nat)
    requires
        i <= a.len(),
        i <= b.len(),
        a.subrange(0, i as int) =~= b.subrange(0, i as int),
    ensures
        name_lt_from(a, b, i) || name_lt_from(b, a, i) || a == b,
    decreases a.len() - i,
{
    if i < a.len() && i < b.len() {
        if a[i as int] == b[i as int] {
            let j: int = i as int + 1;
            assert(a.subrange(0, j) =~= b.subrange(0, j)) by {
                assert forall|k: int| 0 <= k < j implies a.subrange(0, j)[k]
                    == b.subrange(0, j)[k] by {
                    if k < i {
                        assert(a.subrange(0, i as int)[k] == b.subrange(0, i as int)[k]);
                    }
                }
            }
            lemma_name_lt_from_total(a, b, i + 1);
        }
    } else if i == a.len() && i == b.len() {
        assert(a =~= a.subrange(0, i as int));
        assert(b =~= b.subrange(0, i as int));
    }
}

/// A component of a path.
pub enum PathComponent {
    /// The root, `/` at the start.
    RootDir,
    /// `.` at the start.
    CurDir,
    /// `..`.
    ParentDir,
    /// Any other name.
    Normal(Seq<char>),
}

/// The component that a kept piece of a path text stands for.
pub open spec fn component_of(piece: Seq<char>) -> PathComponent {
    if piece == seq!['.'] {
        PathComponent::CurDir
    } else if piece == seq!['.', '.'] {
        PathComponent::ParentDir
    } else {
        PathComponent::Normal(piece)
    }
}

/// The components of a path text: the root where it starts with `/`, then
/// its kept pieces.
pub open spec fn components(s: Seq<char>) -> Seq<PathComponent> {
    (if s.len() > 0 && s[0] == '/' {
        seq![PathComponent::RootDir]
    } else {
        Seq::empty()
    }) + kept_pieces(split_pieces(s)).map_values(|p: Seq<char>| component_of(p))
}

/// The kinds of components in their order.
pub open spec fn component_rank(c: PathComponent) -> int {
    match c {
        PathComponent::RootDir => 0,
        PathComponent::CurDir => 1,
        PathComponent::ParentDir => 2,
        PathComponent::Normal(_) => 3,
    }
}

/// `x < y` for components: by kind, names by their characters.
pub open spec fn component_lt(x: PathComponent, y: PathComponent) -> bool {
    match (x, y) {
        (PathComponent::Normal(p), PathComponent::Normal(q)) => name_lt(p, q),
        _ => component_rank(x) < component_rank(y),
    }
}

/// `x < y` for sequences of components, from index `i` on.
pub open spec fn components_lt_from(x: Seq<PathComponent>, y: Seq<PathComponent>, i: nat) -> bool
    decreases x.len() - i,
{
    if i >= x.len() {
        i < y.len()
    } else if i >= y.len() {
        false
    } else if x[i as int] != y[i as int] {
        component_lt(x[i as int], y[i as int])
    } else {
        components_lt_from(x, y, i + 1)
    }
}

/// `a < b` in path order.
pub open spec fn path_lt(a: Seq<char>, b: Seq<char>) -> bool {
    components_lt_from(components(a), components(b), 0)
}

proof fn lemma_component_lt_irreflexive(x: PathComponent)
    ensures
        !component_lt(x, x),
{
    if let PathComponent::Normal(p) = x {
        lemma_name_lt_from_irreflexive(p, 0);
    }
}

proof fn lemma_component_lt_transitive(x: PathComponent, y: PathComponent, z: PathComponent)
    requires
        component_lt(x, y),
        component_lt(y, z),
    ensures
        component_lt(x, z),
{
    if let (PathComponent::Normal(p), PathComponent::Normal(q), PathComponent::Normal(r)) = (
        x,
        y,
        z,
    ) {
        lemma_name_lt_from_transitive(p, q, r, 0);
    }
}

proof fn lemma_component_lt_total(x: PathComponent, y: PathComponent)
    ensures
        component_lt(x, y) || component_lt(y, x) || x == y,
{
    if let (PathComponent::Normal(p), PathComponent::Normal(q)) = (x, y) {
        assert(p.subrange(0, 0) =~= q.subrange(0, 0));
        lemma_name_lt_from_total(p, q, 0);
    }
}

proof fn lemma_components_lt_from_irreflexive(x: Seq<PathComponent>, i: nat)
    ensures
        !components_lt_from(x, x, i),
    decreases x.len() - i,
{
    if i < x.len() {
        lemma_components_lt_from_irreflexive(x, i + 1);
    }
}

proof fn lemma_components_lt_from_transitive(
    x: Seq<PathComponent>,
    y: Seq<PathComponent>,
    z: Seq<PathComponent>,
    i: nat,
)
    requires
        components_lt_from(x, y, i),
        components_lt_from(y, z, i),
    ensures
        components_lt_from(x, z, i),
    decreases x.len() - i,
{
    if i < x.len() && i < y.len() && i < z.len() {
        let (a, b, c) = (x[i as int], y[i as int], z[i as int]);
        if a == b && b == c {
            lemma_components_lt_from_transitive(x, y, z, i + 1);
        } else if a == b {
            assert(component_lt(b, c));
        } else if b == c {
            assert(component_lt(a, b));
        } else {
            lemma_component_lt_transitive(a, b, c);
            if a == c {
                lemma_component_lt_irreflexive(a);
                lemma_component_lt_transitive(b, a, b);
                lemma_component_lt_irreflexive(b);
            }
        }
    }
}

proof fn lemma_components_lt_from_total(x: Seq<PathComponent>, y: Seq<PathComponent>, i: nat)
    requires
        i <= x.len(),
        i <= y.len(),
        x.subrange(0, i as int) =~= y.subrange(0, i as int),
    ensures
        components_lt_from(x, y, i) || components_lt_from(y, x, i) || x == y,
    decreases x.len() - i,
{
    if i < x.len() && i < y.len() {
        lemma_component_lt_total(x[i as int], y[i as int]);
        if x[i as int] == y[i as int] {
            let j: int = i as int + 1;
            assert(x.subrange(0, j) =~= y.subrange(0, j)) by {
                assert forall|k: int| 0 <= k < j implies x.subrange(0, j)[k]
                    == y.subrange(0, j)[k] by {
                    if k < i {
                        assert(x.subrange(0, i as int)[k] == y.subrange(0, i as int)[k]);
                    }
                }
            }
            lemma_components_lt_from_total(x, y, i + 1);
        }
    } else if i == x.len() && i == y.len() {
        assert(x =~= x.subrange(0, i as int));
        assert(y =~= y.subrange(0, i as int));
    }
}

/// Texts with the same components have the same normal form.
proof fn lemma_same_components(a: Seq<char>, b: Seq<char>)
    requires
        components(a) == components(b),
    ensures
        normal_form(a) == normal_form(b),
{
    let ka = kept_pieces(split_pieces(a));
    let kb = kept_pieces(split_pieces(b));
    let ma = ka.map_values(|p: Seq<char>| component_of(p));
    let mb = kb.map_values(|p: Seq<char>| component_of(p));
    let ra = a.len() > 0 && a[0] == '/';
    let rb = b.len() > 0 && b[0] == '/';
    let ca = components(a);
    if ra != rb {
        if ra {
            assert(ca[0] == PathComponent::RootDir);
            assert(components(b)[0] == mb[0]);
        } else {
            assert(components(b)[0] == PathComponent::RootDir);
            assert(ca[0] == ma[0]);
        }
    }
    assert(ma =~= mb) by {
        if ra {
            assert(ma =~= ca.skip(1));
            assert(mb =~= components(b).skip(1));
        } else {
            assert(ma =~= ca);
            assert(mb =~= components(b));
        }
    }
    assert(ka =~= kb) by {
        assert forall|i: int| 0 <= i < ka.len() implies ka[i] == kb[i] by {
            assert(ma[i] == mb[i]);
        }
    }
}

/// No path comes before itself.
pub proof fn lemma_path_lt_irreflexive(a: Seq<char>)
    ensures
        !path_lt(a, a),
{
    lemma_components_lt_from_irreflexive(components(a), 0);
}

/// Path order is transitive.
pub proof fn lemma_path_lt_transitive(a: Seq<char>, b: Seq<char>, c: Seq<char>)
    requires
        path_lt(a, b),
        path_lt(b, c),
    ensures
        path_lt(a, c),
{
    lemma_components_lt_from_transitive(components(a), components(b), components(c), 0);
}

/// Of two paths, one comes before the other unless they name the same
/// path, that is, have the same normal form.
pub proof fn lemma_path_lt_total(a: Seq<char>, b: Seq<char>)
    ensures
        path_lt(a, b) || path_lt(b, a) || normal_form(a) == normal_form(b),
{
    assert(components(a).subrange(0, 0) =~= components(b).subrange(0, 0));
    lemma_components_lt_from_total(components(a), components(b), 0);
    if components(a) == components(b) {
        lemma_same_components(a, b);
    }
}

/// Two paths are never each before the other.
pub proof fn lemma_path_lt_asymmetric(a: Seq<char>, b: Seq<char>)
    ensures
        !(path_lt(a, b) && path_lt(b, a)),
{
    if path_lt(a, b) && path_lt(b, a) {
        lemma_path_lt_transitive(a, b, a);
        lemma_path_lt_irreflexive(a);
    }
}

/// Whether `a` comes before `b` comparing characters by code point.
fn name_less(a: &str, b: &str) -> (r: bool)
    ensures
        r == name_lt(a@, b@),
{
    let la = a.unicode_len();
    let lb = b.unicode_len();
    let mut i: usize = 0;
    while i < la && i < lb
        invariant
            la == a@.len(),
            lb == b@.len(),
            i <= la,
            i <= lb,
            name_lt(a@, b@) == name_lt_from(a@, b@, i as nat),
        decreases la - i,
    {
        let ca = a.get_char(i);
        let cb = b.get_char(i);
        if ca != cb {
            return (ca as u32) < (cb as u32);
        }
        i = i + 1;
    }
    i < lb
}

/// The rank of the component that a kept piece stands for.
fn piece_rank(piece: &str) -> (r: u8)
    ensures
        r as int == component_rank(component_of(piece@)),
{
    let n = piece.unicode_len();
    if n == 1 && piece.get_char(0) == '.' {
        assert(piece@ =~= seq!['.']);
        1
    } else if n == 2 && piece.get_char(0) == '.' && piece.get_char(1) == '.' {
        assert(piece@ =~= seq!['.', '.']);
        2
    } else {
        proof {
            if piece@ == seq!['.'] {
                assert(piece@[0] == '.');
            }
            if piece@ == seq!['.', '.'] {
                assert(piece@[0] == '.' && piece@[1] == '.');
            }
        }
        3
    }
}

/// Whether the component of one kept piece comes before that of another.
fn component_less(a: &str, b: &str) -> (r: bool)
    ensures
        r == component_lt(component_of(a@), component_of(b@)),
{
    let ra = piece_rank(a);
    let rb = piece_rank(b);
    if ra == 3 && rb == 3 {
        name_less(a, b)
    } else {
        ra < rb
    }
}

/// The views of a sequence of texts.
pub open spec fn texts_view(v: Seq<String>) -> Seq<Seq<char>> {
    v.map_values(|s: String| s@)
}

/// Whether the piece at `index` is kept as a component.
fn keeps_piece(piece: &str, index: usize) -> (r: bool)
    ensures
        r == keep_piece(piece@, index as int),
{
    let n = piece.unicode_len();
    let dot = n == 1 && piece.get_char(0) == '.';
    proof {
        if n == 1 {
            assert(dot == (piece@ =~= seq!['.']));
        } else {
            assert(piece@ != seq!['.']);
        }
    }
    n > 0 && !(dot && index > 0)
}

/// Whether the text starts at the root, and its kept pieces.
fn path_pieces(text: &str) -> (r: (bool, Vec<String>))
    ensures
        r.0 == (text@.len() > 0 && text@[0] == '/'),
        texts_view(r.1@) == kept_pieces(split_pieces(text@)),
{
    let n = text.unicode_len();
    let rooted = n > 0 && text.get_char(0) == '/';
    let mut kept: Vec<String> = Vec::new();
    let mut start: usize = 0;
    let mut index: usize = 0;
    let ghost mut done: Seq<Seq<char>> = Seq::empty();
    let mut i: usize = 0;
    assert(text@.take(0) =~= Seq::<char>::empty());
    assert(split_pieces(text@.take(0)) =~= done.push(text@.subrange(0, 0)));
    assert(texts_view(kept@) =~= kept_pieces(done));
    while i < n
        invariant
            n == text@.len(),
            start <= i <= n,
            index <= i,
            index == done.len(),
            split_pieces(text@.take(i as int)) == done.push(text@.subrange(start as int, i as int)),
            texts_view(kept@) == kept_pieces(done),
        decreases n - i,
    {
        let c = text.get_char(i);
        proof {
            assert(text@.take(i + 1).drop_last() =~= text@.take(i as int));
            assert(text@.take(i + 1).last() == c);
        }
        if c == '/' {
            let piece = text.substring_char(start, i);
            let ghost next = done.push(piece@);
            assert(next.drop_last() =~= done);
            if keeps_piece(piece, index) {
                kept.push(piece.to_owned());
                assert(texts_view(kept@) =~= kept_pieces(next));
            }
            proof {
                done = next;
                assert(text@.subrange(i + 1, i + 1) =~= Seq::<char>::empty());
            }
            index = index + 1;
            start = i + 1;
        } else {
            proof {
                let p = done.push(text@.subrange(start as int, i as int));
                assert(text@.subrange(start as int, i + 1) =~= text@.subrange(start as int, i as int).push(c));
                assert(p.update(p.len() - 1, p.last().push(c)) =~= done.push(
                    text@.subrange(start as int, i + 1),
                ));
            }
        }
        i = i + 1;
    }
    let piece = text.substring_char(start, n);
    let ghost last = done.push(piece@);
    assert(last.drop_last() =~= done);
    if keeps_piece(piece, index) {
        kept.push(piece.to_owned());
        assert(texts_view(kept@) =~= kept_pieces(last));
    }
    assert(text@.take(n as int) =~= text@);
    (rooted, kept)
}

/// Whether `a` comes before `b` in path order.
pub fn path_less(a: &str, b: &str) -> (r: bool)
    ensures
        r == path_lt(a@, b@),
{
    let (ra, pa) = path_pieces(a);
    let (rb, pb) = path_pieces(b);
    let ghost ca = components(a@);
    let ghost cb = components(b@);
    let ghost va = texts_view(pa@);
    let ghost vb = texts_view(pb@);
    let ghost off: int = if ra { 1 } else { 0 };
    assert(ca.len() == va.len() + off);
    assert(forall|k: int| 0 <= k < va.len() ==> ca[k + off] == component_of(#[trigger] va[k]));
    if ra != rb {
        if ra {
            assert(ca[0] == PathComponent::RootDir);
            if pb.len() == 0 {
                assert(cb.len() == 0);
                return false;
            }
            assert(cb[0] == component_of(vb[0]));
            return true;
        } else {
            assert(cb[0] == PathComponent::RootDir);
            if pa.len() == 0 {
                assert(ca.len() == 0);
                return true;
            }
            assert(ca[0] == component_of(va[0]));
            return false;
        }
    }
    assert(cb.len() == vb.len() + off);
    assert(forall|k: int| 0 <= k < vb.len() ==> cb[k + off] == component_of(#[trigger] vb[k]));
    if ra {
        assert(ca[0] == PathComponent::RootDir && cb[0] == PathComponent::RootDir);
    }
    let mut j: usize = 0;
    while j < pa.len() && j < pb.len()
        invariant
            va == texts_view(pa@),
            vb == texts_view(pb@),
            ca.len() == va.len() + off,
            cb.len() == vb.len() + off,
            forall|k: int| 0 <= k < va.len() ==> ca[k + off] == component_of(#[trigger] va[k]),
            forall|k: int| 0 <= k < vb.len() ==> cb[k + off] == component_of(#[trigger] vb[k]),
            0 <= off <= 1,
            j <= pa@.len(),
            j <= pb@.len(),
            path_lt(a@, b@) == components_lt_from(ca, cb, (j + off) as nat),
        decreases pa@.len() - j,
    {
        let x = &pa[j];
        let y = &pb[j];
        assert(ca[j + off] == component_of(va[j as int]));
        assert(cb[j + off] == component_of(vb[j as int]));
        if *x != *y {
            proof {
                if component_of(x@) == component_of(y@) {
                    assert(x@ == y@);
                }
            }
            return component_less(x.as_str(), y.as_str());
        }
        j = j + 1;
    }
    j < pb.len()
}

/// The pieces of a path text between its separators, empty pieces included.
pub open spec fn split_pieces(s: Seq<char>) -> Seq<Seq<char>>
    decreases s.len(),
{
    if s.len() == 0 {
        seq![Seq::empty()]
    } else {
        let p = split_pieces(s.drop_last());
        if s.last() == '/' {
            p.push(Seq::empty())
        } else {
            p.update(p.len() - 1, p.last().push(s.last()))
        }
    }
}

/// Whether the piece at `index` is a component of the path: empty pieces
/// (from repeated or trailing separators) are not, and neither is `.`
/// anywhere but at the start.
pub open spec fn keep_piece(piece: Seq<char>, index: int) -> bool {
    piece.len() > 0 && !(piece == seq!['.'] && index > 0)
}

/// The components among `pieces`, in order.
pub open spec fn kept_pieces(pieces: Seq<Seq<char>>) -> Seq<Seq<char>>
    decreases pieces.len(),
{
    if pieces.len() == 0 {
        Seq::empty()
    } else {
        let rest = kept_pieces(pieces.drop_last());
        if keep_piece(pieces.last(), pieces.len() - 1) {
            rest.push(pieces.last())
        } else {
            rest
        }
    }
}

/// The components joined by `/`.
pub open spec fn join_pieces(pieces: Seq<Seq<char>>) -> Seq<char>
    decreases pieces.len(),
{
    if pieces.len() == 0 {
        Seq::empty()
    } else if pieces.len() == 1 {
        pieces[0]
    } else {
        join_pieces(pieces.drop_last()) + seq!['/'] + pieces.last()
    }
}

/// `/` where the path starts at the root, nothing otherwise.
pub open spec fn root_prefix(s: Seq<char>) -> Seq<char> {
    if s.len() > 0 && s[0] == '/' {
        seq!['/']
    } else {
        Seq::empty()
    }
}

/// The text of a path made of its components alone: repeated and trailing
/// separators and inner `.` components are gone, so that two texts naming
/// the same path by its components have the same normal form.
pub open spec fn normal_form(s: Seq<char>) -> Seq<char> {
    root_prefix(s) + join_pieces(kept_pieces(split_pieces(s)))
}

/// A path text is in normal form.
pub open spec fn is_normal_path(s: Seq<char>) -> bool {
    normal_form(s) == s
}

/// No piece holds a separator.
pub open spec fn pieces_without_separator(ps: Seq<Seq<char>>) -> bool {
    forall|i: int, k: int|
        0 <= i < ps.len() && 0 <= k < ps[i].len() ==> #[trigger] ps[i][k] != '/'
}

proof fn lemma_split_basics(s: Seq<char>)
    ensures
        split_pieces(s).len() >= 1,
        pieces_without_separator(split_pieces(s)),
    decreases s.len(),
{
    if s.len() > 0 {
        lemma_split_basics(s.drop_last());
        let p = split_pieces(s.drop_last());
        if s.last() != '/' {
            let q = p.update(p.len() - 1, p.last().push(s.last()));
            assert forall|i: int, k: int| 0 <= i < q.len() && 0 <= k < q[i].len() implies #[trigger] q[i][k]
                != '/' by {
                if i < p.len() - 1 {
                    assert(q[i] == p[i]);
                } else if k < p.last().len() {
                    assert(q[i][k] == p[i][k]);
                }
            }
        }
    }
}

proof fn lemma_split_push(s: Seq<char>, c: char)
    ensures
        split_pieces(s.push(c)) == (if c == '/' {
            split_pieces(s).push(Seq::empty())
        } else {
            split_pieces(s).update(split_pieces(s).len() - 1, split_pieces(s).last().push(c))
        }),
{
    assert(s.push(c).drop_last() =~= s);
}

/// Splitting `a + b`, where `b` holds no separator, extends the last piece
/// of `a` by `b`.
proof fn lemma_split_append_plain(a: Seq<char>, b: Seq<char>)
    requires
        forall|k: int| 0 <= k < b.len() ==> b[k] != '/',
    ensures
        split_pieces(a + b) == split_pieces(a).update(
            split_pieces(a).len() - 1,
            split_pieces(a).last() + b,
        ),
    decreases b.len(),
{
    lemma_split_basics(a);
    if b.len() == 0 {
        assert(a + b =~= a);
        assert(split_pieces(a).last() + b =~= split_pieces(a).last());
        assert(split_pieces(a).update(split_pieces(a).len() - 1, split_pieces(a).last())
            =~= split_pieces(a));
    } else {
        let b1 = b.drop_last();
        lemma_split_append_plain(a, b1);
        assert(a + b =~= (a + b1).push(b.last()));
        lemma_split_push(a + b1, b.last());
        let p = split_pieces(a);
        assert(split_pieces(a + b) =~= p.update(p.len() - 1, p.last() + b)) by {
            assert((p.last() + b1).push(b.last()) =~= p.last() + b);
        }
    }
}

/// Splitting `a`, a separator and `b` without separators gives the pieces
/// of `a` and then `b`.
proof fn lemma_split_append_piece(a: Seq<char>, b: Seq<char>)
    requires
        forall|k: int| 0 <= k < b.len() ==> b[k] != '/',
    ensures
        split_pieces(a + seq!['/'] + b) == split_pieces(a).push(b),
{
    lemma_split_push(a, '/');
    assert(a + seq!['/'] =~= a.push('/'));
    lemma_split_append_plain(a.push('/'), b);
    let p = split_pieces(a).push(Seq::<char>::empty());
    assert(Seq::<char>::empty() + b =~= b);
    assert(p.update(p.len() - 1, p.last() + b) =~= split_pieces(a).push(b));
}

/// Joining pieces without separators and splitting again gives the pieces.
proof fn lemma_split_join(ps: Seq<Seq<char>>)
    requires
        ps.len() >= 1,
        pieces_without_separator(ps),
    ensures
        split_pieces(join_pieces(ps)) == ps,
    decreases ps.len(),
{
    if ps.len() == 1 {
        assert forall|k: int| 0 <= k < ps[0].len() implies ps[0][k] != '/' by {
            assert(ps[0][k] != '/');
        }
        lemma_split_append_plain(Seq::empty(), ps[0]);
        assert(Seq::<char>::empty() + ps[0] =~= ps[0]);
        assert(split_pieces(Seq::<char>::empty()) =~= seq![Seq::<char>::empty()]);
        assert(seq![Seq::<char>::empty()].update(0, Seq::<char>::empty() + ps[0]) =~= ps);
    } else {
        let d = ps.drop_last();
        assert(pieces_without_separator(d)) by {
            assert forall|i: int, k: int| 0 <= i < d.len() && 0 <= k < d[i].len() implies #[trigger] d[i][k]
                != '/' by {
                assert(ps[i][k] != '/');
            }
        }
        lemma_split_join(d);
        assert forall|k: int| 0 <= k < ps.last().len() implies ps.last()[k] != '/' by {
            assert(ps[ps.len() - 1][k] != '/');
        }
        lemma_split_append_piece(join_pieces(d), ps.last());
        assert(d.push(ps.last()) =~= ps);
    }
}

/// A separator in front adds an empty first piece.
proof fn lemma_split_rooted(t: Seq<char>)
    ensures
        split_pieces(seq!['/'] + t) == seq![Seq::<char>::empty()] + split_pieces(t),
    decreases t.len(),
{
    lemma_split_basics(t);
    if t.len() == 0 {
        assert(seq!['/'] + t =~= Seq::<char>::empty().push('/'));
        lemma_split_push(Seq::empty(), '/');
        assert(split_pieces(Seq::<char>::empty()) =~= seq![Seq::<char>::empty()]);
        assert(split_pieces(seq!['/'] + t) =~= seq![Seq::<char>::empty()] + split_pieces(t));
    } else {
        let t1 = t.drop_last();
        lemma_split_rooted(t1);
        lemma_split_basics(t1);
        assert(seq!['/'] + t =~= (seq!['/'] + t1).push(t.last()));
        lemma_split_push(seq!['/'] + t1, t.last());
        lemma_split_push(t1, t.last());
        assert(t1.push(t.last()) =~= t);
        assert(split_pieces(seq!['/'] + t) =~= seq![Seq::<char>::empty()] + split_pieces(t));
    }
}

/// The first piece of a text that starts at the root is empty.
proof fn lemma_split_first_of_rooted(x: Seq<char>)
    requires
        x.len() > 0,
        x[0] == '/',
    ensures
        split_pieces(x)[0] == Seq::<char>::empty(),
{
    assert(x =~= seq!['/'] + x.skip(1));
    lemma_split_rooted(x.skip(1));
}

/// The first piece of a text that does not start at the root is not empty.
proof fn lemma_split_first_of_relative(x: Seq<char>)
    requires
        x.len() > 0,
        x[0] != '/',
    ensures
        split_pieces(x)[0].len() > 0,
    decreases x.len(),
{
    if x.len() == 1 {
        lemma_split_push(Seq::empty(), x[0]);
        assert(Seq::<char>::empty().push(x[0]) =~= x);
    } else {
        let x1 = x.drop_last();
        lemma_split_first_of_relative(x1);
        lemma_split_basics(x1);
        lemma_split_push(x1, x.last());
        assert(x1.push(x.last()) =~= x);
    }
}

/// Each component is a nonempty piece, `.` only as the first component
/// where the first piece is `.`, and the components hold no separator.
proof fn lemma_kept_shape(ps: Seq<Seq<char>>)
    requires
        pieces_without_separator(ps),
    ensures
        pieces_without_separator(kept_pieces(ps)),
        forall|j: int|
            0 <= j < kept_pieces(ps).len() ==> (#[trigger] kept_pieces(ps)[j]).len() > 0 && (
            kept_pieces(ps)[j] == seq!['.'] ==> j == 0 && ps.len() > 0 && ps[0] == seq!['.']),
    decreases ps.len(),
{
    if ps.len() > 0 {
        let d = ps.drop_last();
        assert(pieces_without_separator(d)) by {
            assert forall|i: int, k: int| 0 <= i < d.len() && 0 <= k < d[i].len() implies #[trigger] d[i][k]
                != '/' by {
                assert(ps[i][k] != '/');
            }
        }
        lemma_kept_shape(d);
        let r = kept_pieces(d);
        if keep_piece(ps.last(), ps.len() - 1) {
            let q = r.push(ps.last());
            assert forall|i: int, k: int| 0 <= i < q.len() && 0 <= k < q[i].len() implies #[trigger] q[i][k]
                != '/' by {
                if i < r.len() {
                    assert(q[i] == r[i]);
                } else {
                    assert(ps[ps.len() - 1][k] != '/');
                }
            }
            assert forall|j: int| 0 <= j < q.len() implies (#[trigger] q[j]).len() > 0 && (q[j]
                == seq!['.'] ==> j == 0 && ps.len() > 0 && ps[0] == seq!['.']) by {
                if j < r.len() {
                    assert(q[j] == r[j]);
                    if r[j] == seq!['.'] {
                        assert(d[0] == ps[0]);
                    }
                } else if q[j] == seq!['.'] {
                    assert(ps.len() - 1 == 0);
                    assert(r.len() == 0) by {
                        assert(d.len() == 0);
                    }
                }
            }
        } else {
            assert forall|j: int| 0 <= j < r.len() implies (#[trigger] r[j]).len() > 0 && (r[j]
                == seq!['.'] ==> j == 0 && ps.len() > 0 && ps[0] == seq!['.']) by {
                if r[j] == seq!['.'] {
                    assert(d[0] == ps[0]);
                }
            }
        }
    }
}

/// Pieces that are all components stay as they are.
proof fn lemma_kept_all(ps: Seq<Seq<char>>)
    requires
        forall|i: int| 0 <= i < ps.len() ==> keep_piece(#[trigger] ps[i], i),
    ensures
        kept_pieces(ps) == ps,
    decreases ps.len(),
{
    if ps.len() > 0 {
        let d = ps.drop_last();
        assert forall|i: int| 0 <= i < d.len() implies keep_piece(#[trigger] d[i], i) by {
            assert(keep_piece(ps[i], i));
        }
        lemma_kept_all(d);
        assert(keep_piece(ps[ps.len() - 1], ps.len() - 1));
        assert(d.push(ps.last()) =~= ps);
    }
}

/// After an empty first piece, nonempty pieces other than `.` are kept.
proof fn lemma_kept_rooted(k: Seq<Seq<char>>)
    requires
        forall|j: int| 0 <= j < k.len() ==> (#[trigger] k[j]).len() > 0 && k[j] != seq!['.'],
    ensures
        kept_pieces(seq![Seq::<char>::empty()] + k) == k,
    decreases k.len(),
{
    let r = seq![Seq::<char>::empty()] + k;
    if k.len() == 0 {
        assert(r =~= seq![Seq::<char>::empty()]);
        assert(r.drop_last() =~= Seq::<Seq<char>>::empty());
        assert(!keep_piece(r.last(), 0));
        reveal_with_fuel(kept_pieces, 2);
        assert(kept_pieces(r) =~= k);
    } else {
        let k1 = k.drop_last();
        assert forall|j: int| 0 <= j < k1.len() implies (#[trigger] k1[j]).len() > 0 && k1[j] != seq!['.'] by {
            assert(k1[j] == k[j]);
        }
        lemma_kept_rooted(k1);
        assert(r.drop_last() =~= seq![Seq::<char>::empty()] + k1);
        assert(r.last() == k[k.len() - 1]);
        assert(k1.push(k.last()) =~= k);
    }
}

/// A join of pieces whose first piece is not empty starts with that piece.
proof fn lemma_join_first(ps: Seq<Seq<char>>)
    requires
        ps.len() >= 1,
        ps[0].len() > 0,
    ensures
        join_pieces(ps).len() > 0,
        join_pieces(ps)[0] == ps[0][0],
    decreases ps.len(),
{
    if ps.len() > 1 {
        lemma_join_first(ps.drop_last());
    }
}

/// Normalising a normal form changes nothing.
pub proof fn lemma_normal_form_is_normal(x: Seq<char>)
    ensures
        is_normal_path(normal_form(x)),
{
    let ps = split_pieces(x);
    lemma_split_basics(x);
    lemma_kept_shape(ps);
    let k = kept_pieces(ps);
    let s = normal_form(x);
    reveal_with_fuel(kept_pieces, 3);
    if k.len() == 0 {
        assert(join_pieces(k) =~= Seq::<char>::empty());
        if x.len() > 0 && x[0] == '/' {
            assert(s =~= seq!['/']);
            lemma_split_rooted(Seq::empty());
            assert(seq!['/'] + Seq::<char>::empty() =~= seq!['/']);
            let e = Seq::<char>::empty();
            assert(split_pieces(e) =~= seq![e]);
            let r = seq![e] + seq![e];
            assert(r.drop_last() =~= seq![e]);
            assert(seq![e].drop_last() =~= Seq::<Seq<char>>::empty());
            assert(!keep_piece(r.last(), 1));
            assert(!keep_piece(seq![e].last(), 0));
            assert(kept_pieces(seq![e]) =~= Seq::<Seq<char>>::empty());
            assert(kept_pieces(r) =~= Seq::<Seq<char>>::empty());
            assert(split_pieces(s) == r);
            assert(normal_form(s) =~= s);
        } else {
            let e = Seq::<char>::empty();
            assert(s =~= e);
            assert(split_pieces(e) =~= seq![e]);
            assert(seq![e].drop_last() =~= Seq::<Seq<char>>::empty());
            assert(!keep_piece(seq![e].last(), 0));
            assert(kept_pieces(seq![e]) =~= Seq::<Seq<char>>::empty());
            assert(root_prefix(e) =~= e);
            assert(normal_form(e) =~= e);
        }
    } else if x.len() > 0 && x[0] == '/' {
        lemma_split_first_of_rooted(x);
        assert forall|j: int| 0 <= j < k.len() implies (#[trigger] k[j]).len() > 0 && k[j] != seq!['.'] by {
            if k[j] == seq!['.'] {
                assert(ps[0] == seq!['.']);
                assert(ps[0].len() == 0);
            }
        }
        assert(s =~= seq!['/'] + join_pieces(k));
        lemma_split_rooted(join_pieces(k));
        lemma_split_join(k);
        lemma_kept_rooted(k);
        assert(normal_form(s) =~= s);
    } else {
        assert(s =~= join_pieces(k));
        lemma_split_join(k);
        assert forall|j: int| 0 <= j < k.len() implies keep_piece(#[trigger] k[j], j) by {
        }
        lemma_kept_all(k);
        lemma_join_first(k);
        assert(k[0][0] != '/');
        assert(root_prefix(s) =~= Seq::<char>::empty());
        assert(normal_form(s) =~= s);
    }
}

/// Adds the piece at `index` to the text built so far from the pieces
/// `done` before it.
fn add_piece(
    out: &mut String,
    kept_any: &mut bool,
    piece: &str,
    index: usize,
    Ghost(prefix): Ghost<Seq<char>>,
    Ghost(done): Ghost<Seq<Seq<char>>>,
)
    requires
        done.len() == index,
        old(out)@ == prefix + join_pieces(kept_pieces(done)),
        *old(kept_any) == (kept_pieces(done).len() > 0),
    ensures
        final(out)@ == prefix + join_pieces(kept_pieces(done.push(piece@))),
        *final(kept_any) == (kept_pieces(done.push(piece@)).len() > 0),
{
    let ghost before = kept_pieces(done);
    assert(done.push(piece@).drop_last() =~= done);
    let n = piece.unicode_len();
    let dot = n == 1 && piece.get_char(0) == '.';
    proof {
        if n == 1 {
            assert(dot == (piece@ =~= seq!['.']));
        } else {
            assert(piece@ != seq!['.']);
        }
    }
    if n > 0 && !(dot && index > 0) {
        if *kept_any {
            let sep = "/";
            proof {
                reveal_strlit("/");
            }
            out.append(sep);
        }
        out.append(piece);
        *kept_any = true;
        proof {
            let after = before.push(piece@);
            assert(after.drop_last() =~= before);
            if before.len() > 0 {
                assert(join_pieces(after) == join_pieces(before) + seq!['/'] + piece@);
                assert(final(out)@ =~= prefix + join_pieces(after));
            } else {
                assert(join_pieces(before) =~= Seq::<char>::empty());
                assert(final(out)@ =~= prefix + join_pieces(after));
            }
        }
    }
}

/// The normal form of a path text.
pub fn normalize_path(text: &str) -> (r: String)
    ensures
        r@ == normal_form(text@),
        is_normal_path(r@),
{
    proof {
        lemma_normal_form_is_normal(text@);
    }
    let n = text.unicode_len();
    let mut out = String::new();
    if n > 0 && text.get_char(0) == '/' {
        let root = "/";
        proof {
            reveal_strlit("/");
        }
        out.append(root);
    }
    let ghost prefix = root_prefix(text@);
    assert(out@ =~= prefix + join_pieces(kept_pieces(Seq::<Seq<char>>::empty())));
    let mut kept_any = false;
    let mut start: usize = 0;
    let mut index: usize = 0;
    let ghost mut done: Seq<Seq<char>> = Seq::empty();
    let mut i: usize = 0;
    assert(text@.take(0) =~= Seq::<char>::empty());
    assert(split_pieces(text@.take(0)) =~= done.push(text@.subrange(0, 0)));
    while i < n
        invariant
            n == text@.len(),
            start <= i <= n,
            index <= i,
            index == done.len(),
            prefix == root_prefix(text@),
            split_pieces(text@.take(i as int)) == done.push(text@.subrange(start as int, i as int)),
            out@ == prefix + join_pieces(kept_pieces(done)),
            kept_any == (kept_pieces(done).len() > 0),
        decreases n - i,
    {
        let c = text.get_char(i);
        proof {
            assert(text@.take(i + 1).drop_last() =~= text@.take(i as int));
            assert(text@.take(i + 1).last() == c);
        }
        if c == '/' {
            let piece = text.substring_char(start, i);
            add_piece(&mut out, &mut kept_any, piece, index, Ghost(prefix), Ghost(done));
            proof {
                done = done.push(text@.subrange(start as int, i as int));
                assert(text@.subrange(i + 1, i + 1) =~= Seq::<char>::empty());
            }
            index = index + 1;
            start = i + 1;
        } else {
            proof {
                let p = done.push(text@.subrange(start as int, i as int));
                assert(text@.subrange(start as int, i + 1) =~= text@.subrange(start as int, i as int).push(c));
                assert(p.update(p.len() - 1, p.last().push(c)) =~= done.push(
                    text@.subrange(start as int, i + 1),
                ));
            }
        }
        i = i + 1;
    }
    let piece = text.substring_char(start, n);
    add_piece(&mut out, &mut kept_any, piece, index, Ghost(prefix), Ghost(done));
    assert(text@.take(n as int) =~= text@);
    out
}

/// What `std::path::Path::join` gives for a base path and a path to join on.
pub uninterp spec fn joined_path(base: Seq<char>, path: Seq<char>) -> Seq<char>;

/// Calls `std::path::Path::join`: `path` appended to `base` with the
/// platform's separator, or `path` itself where it is absolute.  The contract
/// only names the result: which separator is used is the platform's.
#[verifier::external_body]
pub(crate) fn join_path(base: &str, path: &str) -> (r: String)
    ensures
        r@ == joined_path(base@, path@),
{
    std::path::Path::new(base).join(path).to_string_lossy().into_owned()
}

} // verus!
