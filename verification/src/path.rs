//! Lexical (string-only) handling of Unix paths: splitting into components,
//! joining, resolving `.` and `..`, and component-wise prefix tests.
//!
//! The component model follows the Unix rules of `std::path::Path::components`:
//! a leading `/` is the root, a leading `.` segment is kept as the current
//! directory, empty segments and inner `.` segments are dropped, and `..` is
//! the parent directory.
use vstd::prelude::*;

verus! {

/// A path component, as a mathematical value.
pub enum Comp {
    RootDir,
    CurDir,
    ParentDir,
    Normal(Seq<char>),
}

/// A path component held by executable code.
pub enum Component {
    RootDir,
    CurDir,
    ParentDir,
    Normal(Vec<char>),
}

impl View for Component {
    type V = Comp;

    open spec fn view(&self) -> Comp {
        match self {
            Component::RootDir => Comp::RootDir,
            Component::CurDir => Comp::CurDir,
            Component::ParentDir => Comp::ParentDir,
            Component::Normal(v) => Comp::Normal(v@),
        }
    }
}

pub open spec fn comp_views(cs: Seq<Component>) -> Seq<Comp> {
    cs.map_values(|c: Component| c@)
}

pub open spec fn char_views(vs: Seq<Vec<char>>) -> Seq<Seq<char>> {
    vs.map_values(|v: Vec<char>| v@)
}

/// The pieces of `s` between the `/` separators (always at least one piece).
pub open spec fn segments(s: Seq<char>) -> Seq<Seq<char>>
    decreases s.len(),
{
    if s.len() == 0 {
        seq![Seq::<char>::empty()]
    } else {
        let init = segments(s.drop_last());
        if s.last() == '/' {
            init.push(Seq::<char>::empty())
        } else {
            init.update(init.len() - 1, init.last().push(s.last()))
        }
    }
}

pub open spec fn has_root(s: Seq<char>) -> bool {
    s.len() > 0 && s[0] == '/'
}

/// A relative path whose first segment is exactly `.` starts with the current directory.
pub open spec fn starts_with_cur_dir(s: Seq<char>) -> bool {
    &&& !has_root(s)
    &&& s.len() > 0
    &&& s[0] == '.'
    &&& (s.len() == 1 || s[1] == '/')
}

/// The component that a single segment contributes (none for empty and `.` segments).
pub open spec fn segment_component(p: Seq<char>) -> Seq<Comp> {
    if p.len() == 0 || p == seq!['.'] {
        Seq::empty()
    } else if p == seq!['.', '.'] {
        seq![Comp::ParentDir]
    } else {
        seq![Comp::Normal(p)]
    }
}

pub open spec fn segment_components(segs: Seq<Seq<char>>) -> Seq<Comp>
    decreases segs.len(),
{
    if segs.len() == 0 {
        Seq::empty()
    } else {
        segment_components(segs.drop_last()) + segment_component(segs.last())
    }
}

/// The components of the path `s`.
pub open spec fn components(s: Seq<char>) -> Seq<Comp> {
    (if has_root(s) { seq![Comp::RootDir] } else { Seq::empty() })
        + (if starts_with_cur_dir(s) { seq![Comp::CurDir] } else { Seq::empty() })
        + segment_components(segments(s))
}

/// The stack of normal components left after resolving `.` and `..` lexically:
/// `.` is dropped and `..` removes the last normal component, if there is one.
pub open spec fn resolved(cs: Seq<Comp>) -> Seq<Seq<char>>
    decreases cs.len(),
{
    if cs.len() == 0 {
        Seq::empty()
    } else {
        let st = resolved(cs.drop_last());
        match cs.last() {
            Comp::Normal(p) => st.push(p),
            Comp::ParentDir => if st.len() > 0 { st.drop_last() } else { st },
            _ => st,
        }
    }
}

/// `parts` joined with `/` between them.
pub open spec fn join_parts(parts: Seq<Seq<char>>) -> Seq<char>
    decreases parts.len(),
{
    if parts.len() == 0 {
        Seq::empty()
    } else if parts.len() == 1 {
        parts[0]
    } else {
        join_parts(parts.drop_last()) + seq!['/'] + parts.last()
    }
}

/// The text of the lexically normalized path.
pub open spec fn normalized_text(s: Seq<char>) -> Seq<char> {
    (if has_root(s) { seq!['/'] } else { Seq::empty() }) + join_parts(resolved(components(s)))
}

/// The components of the lexically normalized path: the root, if any, then the
/// normal components that remain.
pub open spec fn normalized_components(s: Seq<char>) -> Seq<Comp> {
    (if has_root(s) { seq![Comp::RootDir] } else { Seq::empty() }) + resolved(
        components(s),
    ).map_values(|p: Seq<char>| Comp::Normal(p))
}

/// `base` is a component-wise prefix of `path`.
pub open spec fn comps_start_with(path: Seq<Comp>, base: Seq<Comp>) -> bool {
    base.len() <= path.len() && path.take(base.len() as int) == base
}

/// `path`, with `.` and `..` resolved lexically, lies at or below `mount`.
pub open spec fn lies_under(path: Seq<char>, mount: Seq<char>) -> bool {
    comps_start_with(normalized_components(path), components(mount))
}

/// `base` joined with `rel` the way `Path::join` does on Unix: an absolute `rel`
/// replaces `base`; otherwise a `/` is put between them unless `base` is empty
/// or already ends with one.
pub open spec fn joined(base: Seq<char>, rel: Seq<char>) -> Seq<char> {
    if has_root(rel) {
        rel
    } else if base.len() == 0 {
        rel
    } else if base.last() == '/' {
        base + rel
    } else {
        base + seq!['/'] + rel
    }
}

/// The last component of `s`, if it is a normal one.
pub open spec fn file_name(s: Seq<char>) -> Option<Seq<char>> {
    let cs = components(s);
    if cs.len() > 0 && cs.last() is Normal {
        Some(cs.last()->Normal_0)
    } else {
        None
    }
}

pub fn chars_equal(a: &Vec<char>, b: &Vec<char>) -> (r: bool)
    ensures
        r == (a@ == b@),
{
    if a.len() != b.len() {
        return false;
    }
    let mut i: usize = 0;
    while i < a.len()
        invariant
            a.len() == b.len(),
            i <= a.len(),
            a@.take(i as int) == b@.take(i as int),
        decreases a.len() - i,
    {
        if a[i] != b[i] {
            assert(a@[i as int] != b@[i as int]);
            return false;
        }
        assert(a@.take(i + 1) == a@.take(i as int).push(a@[i as int]));
        assert(b@.take(i + 1) == b@.take(i as int).push(b@[i as int]));
        i = i + 1;
    }
    assert(a@ == a@.take(a.len() as int));
    assert(b@ == b@.take(b.len() as int));
    true
}

fn split_segments(s: &Vec<char>) -> (r: Vec<Vec<char>>)
    ensures
        char_views(r@) == segments(s@),
{
    let mut done: Vec<Vec<char>> = Vec::new();
    let mut cur: Vec<char> = Vec::new();
    let n = s.len();
    let mut i: usize = 0;
    assert(s@.take(0) == Seq::<char>::empty());
    assert(char_views(done@).push(cur@) == segments(s@.take(0)));
    while i < n
        invariant
            n == s.len(),
            i <= n,
            char_views(done@).push(cur@) == segments(s@.take(i as int)),
        decreases n - i,
    {
        let c = s[i];
        assert(s@.take(i + 1).drop_last() == s@.take(i as int));
        assert(s@.take(i + 1).last() == c);
        let ghost before = char_views(done@);
        let ghost old_cur = cur@;
        if c == '/' {
            done.push(cur);
            cur = Vec::new();
            assert(char_views(done@) == before.push(old_cur));
            assert(char_views(done@).push(cur@) == segments(s@.take(i + 1)));
        } else {
            cur.push(c);
            assert(char_views(done@).push(cur@) == segments(s@.take(i + 1)));
        }
        i = i + 1;
    }
    assert(s@.take(n as int) == s@);
    let ghost before = char_views(done@);
    done.push(cur);
    assert(char_views(done@) == before.push(cur@));
    done
}

fn is_dot(p: &Vec<char>) -> (r: bool)
    ensures
        r == (p@ == seq!['.']),
{
    let r = p.len() == 1 && p[0] == '.';
    proof {
        if r {
            assert(p@ =~= seq!['.']);
        }
    }
    r
}

fn is_dot_dot(p: &Vec<char>) -> (r: bool)
    ensures
        r == (p@ == seq!['.', '.']),
{
    let r = p.len() == 2 && p[0] == '.' && p[1] == '.';
    proof {
        if r {
            assert(p@ =~= seq!['.', '.']);
        }
    }
    r
}

/// The components of the path `s`.
pub fn components_of(s: &Vec<char>) -> (r: Vec<Component>)
    ensures
        comp_views(r@) == components(s@),
{
    let mut out: Vec<Component> = Vec::new();
    let rooted = s.len() > 0 && s[0] == '/';
    if rooted {
        out.push(Component::RootDir);
    }
    if !rooted && s.len() > 0 && s[0] == '.' && (s.len() == 1 || s[1] == '/') {
        out.push(Component::CurDir);
    }
    let ghost lead = comp_views(out@);
    assert(lead == (if has_root(s@) { seq![Comp::RootDir] } else { Seq::empty() }) + (
    if starts_with_cur_dir(s@) {
        seq![Comp::CurDir]
    } else {
        Seq::empty()
    }));
    let segs = split_segments(s);
    let n = segs.len();
    let mut k: usize = 0;
    assert(char_views(segs@).take(0) == Seq::<Seq<char>>::empty());
    assert(comp_views(out@) == lead + segment_components(char_views(segs@).take(0)));
    while k < n
        invariant
            n == segs.len(),
            k <= n,
            comp_views(out@) == lead + segment_components(char_views(segs@).take(k as int)),
        decreases n - k,
    {
        let ghost before = comp_views(out@);
        let p = &segs[k];
        assert(char_views(segs@).take(k + 1).drop_last() == char_views(segs@).take(k as int));
        assert(char_views(segs@).take(k + 1).last() == p@);
        if p.len() == 0 || is_dot(p) {
            assert(segment_component(p@) == Seq::<Comp>::empty());
            assert(comp_views(out@) == lead + segment_components(char_views(segs@).take(k + 1)));
        } else if is_dot_dot(p) {
            out.push(Component::ParentDir);
            assert(comp_views(out@) == before.push(Comp::ParentDir));
            assert(comp_views(out@) == lead + segment_components(char_views(segs@).take(k + 1)));
        } else {
            out.push(Component::Normal(p.clone()));
            assert(comp_views(out@) == before.push(Comp::Normal(p@)));
            assert(comp_views(out@) == lead + segment_components(char_views(segs@).take(k + 1)));
        }
        k = k + 1;
    }
    assert(char_views(segs@).take(n as int) == char_views(segs@));
    out
}

/// The normal components left after resolving `.` and `..` in `cs`.
fn resolve_components(cs: &Vec<Component>) -> (r: Vec<Vec<char>>)
    ensures
        char_views(r@) == resolved(comp_views(cs@)),
{
    let mut st: Vec<Vec<char>> = Vec::new();
    let n = cs.len();
    let mut k: usize = 0;
    assert(comp_views(cs@).take(0) == Seq::<Comp>::empty());
    while k < n
        invariant
            n == cs.len(),
            k <= n,
            char_views(st@) == resolved(comp_views(cs@).take(k as int)),
        decreases n - k,
    {
        let ghost before = char_views(st@);
        assert(comp_views(cs@).take(k + 1).drop_last() == comp_views(cs@).take(k as int));
        assert(comp_views(cs@).take(k + 1).last() == cs@[k as int]@);
        match &cs[k] {
            Component::Normal(p) => {
                st.push(p.clone());
                assert(char_views(st@) == before.push(p@));
            },
            Component::ParentDir => {
                if st.len() > 0 {
                    st.pop();
                    assert(char_views(st@) == before.drop_last());
                }
            },
            _ => {},
        }
        k = k + 1;
    }
    assert(comp_views(cs@).take(n as int) == comp_views(cs@));
    st
}

/// `path` with `.` and `..` components resolved lexically, without touching the
/// filesystem (`/home/user/../mnt` becomes `/home/mnt`).
pub fn normalize_lexically(path: &str) -> (r: String)
    ensures
        r@ == normalized_text(path@),
{
    let s = crate::text::chars_of(path);
    let cs = components_of(&s);
    let st = resolve_components(&cs);
    let mut out = String::new();
    if s.len() > 0 && s[0] == '/' {
        out.push('/');
    }
    let ghost lead = out@;
    let n = st.len();
    let mut k: usize = 0;
    assert(char_views(st@).take(0) == Seq::<Seq<char>>::empty());
    while k < n
        invariant
            n == st.len(),
            k <= n,
            out@ == lead + join_parts(char_views(st@).take(k as int)),
        decreases n - k,
    {
        assert(char_views(st@).take(k + 1).drop_last() == char_views(st@).take(k as int));
        assert(char_views(st@).take(k + 1).last() == st@[k as int]@);
        if k > 0 {
            out.push('/');
        }
        crate::text::push_chars(&mut out, &st[k]);
        proof {
            if k == 0 {
                assert(char_views(st@).take(1) == seq![st@[0]@]);
            }
        }
        k = k + 1;
    }
    assert(char_views(st@).take(n as int) == char_views(st@));
    out
}

/// `base` joined with `rel` as `Path::join` does on Unix.
pub fn join_path(base: &Vec<char>, rel: &Vec<char>) -> (r: Vec<char>)
    ensures
        r@ == joined(base@, rel@),
{
    if rel.len() > 0 && rel[0] == '/' {
        return rel.clone();
    }
    if base.len() == 0 {
        return rel.clone();
    }
    let mut out = base.clone();
    if base[base.len() - 1] != '/' {
        out.push('/');
    }
    let ghost lead = out@;
    let n = rel.len();
    let mut k: usize = 0;
    while k < n
        invariant
            n == rel.len(),
            k <= n,
            out@ == lead + rel@.take(k as int),
        decreases n - k,
    {
        out.push(rel[k]);
        assert(rel@.take(k + 1) == rel@.take(k as int).push(rel@[k as int]));
        k = k + 1;
    }
    assert(rel@.take(n as int) == rel@);
    out
}

fn component_equal(a: &Component, b: &Component) -> (r: bool)
    ensures
        r == (a@ == b@),
{
    match (a, b) {
        (Component::RootDir, Component::RootDir) => true,
        (Component::CurDir, Component::CurDir) => true,
        (Component::ParentDir, Component::ParentDir) => true,
        (Component::Normal(x), Component::Normal(y)) => chars_equal(x, y),
        _ => false,
    }
}

/// Whether `path`, with `.` and `..` resolved lexically, lies at or below `mount`
/// (a component-wise prefix test, as `Path::starts_with` does).
pub fn path_lies_under(path: &Vec<char>, mount: &Vec<char>) -> (r: bool)
    ensures
        r == lies_under(path@, mount@),
{
    let pcs = components_of(path);
    let st = resolve_components(&pcs);
    let mut norm: Vec<Component> = Vec::new();
    if path.len() > 0 && path[0] == '/' {
        norm.push(Component::RootDir);
    }
    let ghost lead = comp_views(norm@);
    let ghost stv = resolved(components(path@));
    let n = st.len();
    let mut k: usize = 0;
    assert(stv.take(0).map_values(|p: Seq<char>| Comp::Normal(p)) == Seq::<Comp>::empty());
    while k < n
        invariant
            n == st.len(),
            k <= n,
            char_views(st@) == stv,
            comp_views(norm@) == lead + stv.take(k as int).map_values(|p: Seq<char>| Comp::Normal(p)),
        decreases n - k,
    {
        let ghost before = comp_views(norm@);
        norm.push(Component::Normal(st[k].clone()));
        assert(stv.take(k + 1) == stv.take(k as int).push(stv[k as int]));
        assert(stv.take(k + 1).map_values(|p: Seq<char>| Comp::Normal(p)) == stv.take(
            k as int,
        ).map_values(|p: Seq<char>| Comp::Normal(p)).push(Comp::Normal(stv[k as int])));
        assert(comp_views(norm@) == before.push(Comp::Normal(st@[k as int]@)));
        k = k + 1;
    }
    assert(stv.take(n as int) == stv);
    assert(comp_views(norm@) == normalized_components(path@));
    let mcs = components_of(mount);
    if mcs.len() > norm.len() {
        return false;
    }
    let m = mcs.len();
    let mut j: usize = 0;
    while j < m
        invariant
            m == mcs.len(),
            m <= norm.len(),
            j <= m,
            comp_views(norm@) == normalized_components(path@),
            comp_views(mcs@) == components(mount@),
            comp_views(norm@).take(j as int) == comp_views(mcs@).take(j as int),
        decreases m - j,
    {
        if !component_equal(&norm[j], &mcs[j]) {
            assert(comp_views(norm@).take(m as int)[j as int] != comp_views(mcs@)[j as int]);
            return false;
        }
        assert(comp_views(norm@).take(j + 1) == comp_views(norm@).take(j as int).push(
            norm@[j as int]@,
        ));
        assert(comp_views(mcs@).take(j + 1) == comp_views(mcs@).take(j as int).push(
            mcs@[j as int]@,
        ));
        j = j + 1;
    }
    assert(comp_views(mcs@).take(m as int) == comp_views(mcs@));
    true
}

/// The last component of `s`, if it is a normal one (as `Path::file_name`).
pub fn file_name_of(s: &Vec<char>) -> (r: Option<Vec<char>>)
    ensures
        match r {
            Some(v) => file_name(s@) == Some(v@),
            None => file_name(s@) is None,
        },
{
    let cs = components_of(s);
    if cs.len() == 0 {
        return None;
    }
    assert(comp_views(cs@).last() == cs@[cs.len() - 1]@);
    match &cs[cs.len() - 1] {
        Component::Normal(p) => Some(p.clone()),
        _ => None,
    }
}

/// A normal component as `components` produces it: non-empty, without `/`,
/// and neither `.` nor `..`.
pub open spec fn plain_part(p: Seq<char>) -> bool {
    &&& p.len() > 0
    &&& forall|j: int| 0 <= j < p.len() ==> #[trigger] p[j] != '/'
    &&& p != seq!['.']
    &&& p != seq!['.', '.']
}

pub open spec fn all_plain(st: Seq<Seq<char>>) -> bool {
    forall|i: int| 0 <= i < st.len() ==> plain_part(#[trigger] st[i])
}

proof fn lemma_segments_concat(x: Seq<char>, y: Seq<char>)
    ensures
        segments(x + seq!['/'] + y) == segments(x) + segments(y),
    decreases y.len(),
{
    let xs = x + seq!['/'];
    if y.len() == 0 {
        assert(xs + y =~= xs);
        assert(xs.drop_last() =~= x);
        assert(segments(x) + segments(y) =~= segments(x).push(Seq::<char>::empty()));
    } else {
        lemma_segments_concat(x, y.drop_last());
        assert((xs + y).drop_last() =~= xs + y.drop_last());
        assert((xs + y).last() == y.last());
        let a = segments(x);
        let b = segments(y.drop_last());
        lemma_segments_nonempty(y.drop_last());
        if y.last() == '/' {
            assert((a + b).push(Seq::<char>::empty()) =~= a + b.push(Seq::<char>::empty()));
        } else {
            let ab = a + b;
            assert(ab.update(ab.len() - 1, ab.last().push(y.last())) =~= a + b.update(
                b.len() - 1,
                b.last().push(y.last()),
            ));
        }
    }
}

proof fn lemma_segments_nonempty(s: Seq<char>)
    ensures
        segments(s).len() >= 1,
    decreases s.len(),
{
    if s.len() > 0 {
        lemma_segments_nonempty(s.drop_last());
    }
}

proof fn lemma_segments_single(p: Seq<char>)
    requires
        forall|j: int| 0 <= j < p.len() ==> #[trigger] p[j] != '/',
    ensures
        segments(p) == seq![p],
    decreases p.len(),
{
    if p.len() == 0 {
        assert(p =~= Seq::<char>::empty());
    } else {
        assert forall|j: int| 0 <= j < p.drop_last().len() implies #[trigger] p.drop_last()[j]
            != '/' by {
            assert(p.drop_last()[j] == p[j]);
        }
        lemma_segments_single(p.drop_last());
        assert(p[p.len() - 1] != '/');
        assert(p.last() != '/');
        let init = segments(p.drop_last());
        assert(init == seq![p.drop_last()]);
        assert(init.last() == p.drop_last());
        assert(p.drop_last().push(p.last()) =~= p);
        assert(init.update(init.len() - 1, init.last().push(p.last())) =~= seq![p]);
    }
}

proof fn lemma_segments_no_separator(s: Seq<char>)
    ensures
        forall|i: int, j: int|
            0 <= i < segments(s).len() && 0 <= j < segments(s)[i].len() ==> #[trigger] segments(
                s,
            )[i][j] != '/',
    decreases s.len(),
{
    if s.len() > 0 {
        lemma_segments_no_separator(s.drop_last());
        lemma_segments_nonempty(s.drop_last());
        let init = segments(s.drop_last());
        if s.last() != '/' {
            let last = init.last().push(s.last());
            assert forall|i: int, j: int|
                0 <= i < segments(s).len() && 0 <= j < segments(s)[i].len() implies #[trigger] segments(
                s,
            )[i][j] != '/' by {
                if i < init.len() - 1 {
                    assert(segments(s)[i] == init[i]);
                } else {
                    assert(segments(s)[i] == last);
                    if j < init.last().len() {
                        assert(last[j] == init[init.len() - 1][j]);
                    }
                }
            }
        } else {
            assert forall|i: int, j: int|
                0 <= i < segments(s).len() && 0 <= j < segments(s)[i].len() implies #[trigger] segments(
                s,
            )[i][j] != '/' by {
                if i < init.len() {
                    assert(segments(s)[i] == init[i]);
                }
            }
        }
    }
}

proof fn lemma_join_starts_with_first(st: Seq<Seq<char>>)
    requires
        st.len() > 0,
    ensures
        join_parts(st).len() >= st[0].len(),
        forall|j: int| 0 <= j < st[0].len() ==> #[trigger] join_parts(st)[j] == st[0][j],
    decreases st.len(),
{
    if st.len() > 1 {
        lemma_join_starts_with_first(st.drop_last());
        assert(st.drop_last()[0] == st[0]);
        let a = join_parts(st.drop_last());
        assert forall|j: int| 0 <= j < st[0].len() implies #[trigger] join_parts(st)[j]
            == st[0][j] by {
            assert(join_parts(st) == a + seq!['/'] + st.last());
            assert((a + seq!['/'] + st.last())[j] == a[j]);
        }
    }
}

proof fn lemma_segments_of_join(st: Seq<Seq<char>>)
    requires
        st.len() > 0,
        all_plain(st),
    ensures
        segments(join_parts(st)) == st,
    decreases st.len(),
{
    if st.len() == 1 {
        assert(plain_part(st[0]));
        lemma_segments_single(st[0]);
        assert(seq![st[0]] =~= st);
    } else {
        let init = st.drop_last();
        assert forall|i: int| 0 <= i < init.len() implies plain_part(#[trigger] init[i]) by {
            assert(init[i] == st[i]);
        }
        lemma_segments_of_join(init);
        assert(plain_part(st[st.len() - 1]));
        lemma_segments_single(st.last());
        lemma_segments_concat(join_parts(init), st.last());
        assert(init + seq![st.last()] =~= st);
    }
}

proof fn lemma_segment_components_concat(a: Seq<Seq<char>>, b: Seq<Seq<char>>)
    ensures
        segment_components(a + b) == segment_components(a) + segment_components(b),
    decreases b.len(),
{
    if b.len() == 0 {
        assert(a + b =~= a);
        assert(segment_components(a) + segment_components(b) =~= segment_components(a));
    } else {
        lemma_segment_components_concat(a, b.drop_last());
        assert((a + b).drop_last() =~= a + b.drop_last());
        assert((a + b).last() == b.last());
        assert(segment_components(a) + segment_components(b.drop_last()) + segment_component(
            b.last(),
        ) =~= segment_components(a) + (segment_components(b.drop_last()) + segment_component(
            b.last(),
        )));
    }
}

proof fn lemma_segment_components_plain(st: Seq<Seq<char>>)
    requires
        all_plain(st),
    ensures
        segment_components(st) == st.map_values(|p: Seq<char>| Comp::Normal(p)),
    decreases st.len(),
{
    if st.len() > 0 {
        let init = st.drop_last();
        assert forall|i: int| 0 <= i < init.len() implies plain_part(#[trigger] init[i]) by {
            assert(init[i] == st[i]);
        }
        lemma_segment_components_plain(init);
        assert(plain_part(st[st.len() - 1]));
        assert(segment_component(st.last()) == seq![Comp::Normal(st.last())]);
        assert(init.map_values(|p: Seq<char>| Comp::Normal(p)) + seq![Comp::Normal(st.last())]
            =~= st.map_values(|p: Seq<char>| Comp::Normal(p)));
    }
}

/// Every normal component of a path is a plain part.
proof fn lemma_components_plain(s: Seq<char>)
    ensures
        forall|i: int|
            0 <= i < components(s).len() ==> (#[trigger] components(s)[i] matches Comp::Normal(p)
                ==> plain_part(p)),
{
    lemma_segments_no_separator(s);
    lemma_segment_components_normal(segments(s));
    let lead = (if has_root(s) { seq![Comp::RootDir] } else { Seq::empty() }) + (
    if starts_with_cur_dir(s) {
        seq![Comp::CurDir]
    } else {
        Seq::empty()
    });
    let sc = segment_components(segments(s));
    assert forall|i: int|
        0 <= i < components(s).len() implies (#[trigger] components(s)[i] matches Comp::Normal(p)
        ==> plain_part(p)) by {
        if i >= lead.len() {
            assert(components(s)[i] == sc[i - lead.len()]);
        } else {
            assert(components(s)[i] == lead[i]);
        }
    }
}

proof fn lemma_segment_components_normal(segs: Seq<Seq<char>>)
    requires
        forall|i: int, j: int|
            0 <= i < segs.len() && 0 <= j < segs[i].len() ==> #[trigger] segs[i][j] != '/',
    ensures
        forall|i: int|
            0 <= i < segment_components(segs).len() ==> (#[trigger] segment_components(segs)[i] matches Comp::Normal(
                p,
            ) ==> plain_part(p)),
    decreases segs.len(),
{
    if segs.len() > 0 {
        let init = segs.drop_last();
        assert forall|i: int, j: int|
            0 <= i < init.len() && 0 <= j < init[i].len() implies #[trigger] init[i][j]
            != '/' by {
            assert(init[i] == segs[i]);
        }
        lemma_segment_components_normal(init);
        let a = segment_components(init);
        let b = segment_component(segs.last());
        assert forall|i: int|
            0 <= i < segment_components(segs).len() implies (
        #[trigger] segment_components(segs)[i] matches Comp::Normal(p) ==> plain_part(p)) by {
            if i < a.len() {
                assert(segment_components(segs)[i] == a[i]);
            } else {
                assert(segment_components(segs)[i] == b[i - a.len()]);
                let l = segs.last();
                assert forall|j: int| 0 <= j < l.len() implies #[trigger] l[j] != '/' by {
                    assert(l[j] == segs[segs.len() - 1][j]);
                }
            }
        }
    }
}

proof fn lemma_resolved_plain(cs: Seq<Comp>)
    requires
        forall|i: int| 0 <= i < cs.len() ==> (#[trigger] cs[i] matches Comp::Normal(p) ==> plain_part(p)),
    ensures
        all_plain(resolved(cs)),
    decreases cs.len(),
{
    if cs.len() > 0 {
        let init = cs.drop_last();
        assert forall|i: int| 0 <= i < init.len() implies (#[trigger] init[i] matches Comp::Normal(
            p,
        ) ==> plain_part(p)) by {
            assert(init[i] == cs[i]);
        }
        lemma_resolved_plain(init);
        let st = resolved(init);
        assert(cs[cs.len() - 1] == cs.last());
        match cs.last() {
            Comp::Normal(p) => {
                assert forall|i: int| 0 <= i < st.push(p).len() implies plain_part(
                    #[trigger] st.push(p)[i],
                ) by {
                    if i < st.len() {
                        assert(st.push(p)[i] == st[i]);
                    }
                }
            },
            Comp::ParentDir => {
                if st.len() > 0 {
                    assert forall|i: int| 0 <= i < st.drop_last().len() implies plain_part(
                        #[trigger] st.drop_last()[i],
                    ) by {
                        assert(st.drop_last()[i] == st[i]);
                    }
                }
            },
            _ => {},
        }
    }
}

proof fn lemma_resolved_of_normals(lead: Seq<Comp>, st: Seq<Seq<char>>)
    requires
        lead == Seq::<Comp>::empty() || lead == seq![Comp::RootDir],
    ensures
        resolved(lead + st.map_values(|p: Seq<char>| Comp::Normal(p))) == st,
    decreases st.len(),
{
    let m = st.map_values(|p: Seq<char>| Comp::Normal(p));
    if st.len() == 0 {
        assert(lead + m =~= lead);
        if lead.len() == 1 {
            assert(lead.drop_last() =~= Seq::<Comp>::empty());
            assert(lead.last() == Comp::RootDir);
            assert(resolved(lead) == resolved(lead.drop_last()));
        }
        assert(st =~= Seq::<Seq<char>>::empty());
    } else {
        lemma_resolved_of_normals(lead, st.drop_last());
        assert((lead + m).drop_last() =~= lead + st.drop_last().map_values(
            |p: Seq<char>| Comp::Normal(p),
        ));
        assert((lead + m).last() == Comp::Normal(st.last()));
        assert(resolved(lead + m) == resolved((lead + m).drop_last()).push(st.last()));
        assert(st.drop_last().push(st.last()) =~= st);
    }
}

proof fn lemma_segment_components_of_empty_piece()
    ensures
        segment_components(seq![Seq::<char>::empty()]) == Seq::<Comp>::empty(),
{
    let e = Seq::<char>::empty();
    assert(seq![e].drop_last() =~= Seq::<Seq<char>>::empty());
    assert(seq![e].last() == e);
    assert(segment_component(e) == Seq::<Comp>::empty());
    assert(segment_components(Seq::<Seq<char>>::empty()) == Seq::<Comp>::empty());
    assert(segment_components(seq![e]) == segment_components(seq![e].drop_last())
        + segment_component(seq![e].last()));
    assert(Seq::<Comp>::empty() + Seq::<Comp>::empty() =~= Seq::<Comp>::empty());
}

/// The normalized text of `p`, parsed again, has exactly the normalized
/// components of `p`.
proof fn lemma_components_of_normalized(p: Seq<char>)
    ensures
        components(normalized_text(p)) == normalized_components(p),
        has_root(normalized_text(p)) == has_root(p),
{
    let st = resolved(components(p));
    lemma_components_plain(p);
    lemma_resolved_plain(components(p));
    let j = join_parts(st);
    let q = normalized_text(p);
    let m = st.map_values(|x: Seq<char>| Comp::Normal(x));
    if st.len() > 0 {
        lemma_segments_of_join(st);
        lemma_segment_components_plain(st);
        lemma_join_starts_with_first(st);
        assert(plain_part(st[0]));
        assert(j[0] == st[0][0]);
    }
    if has_root(p) {
        assert(q == seq!['/'] + j);
        assert(q[0] == '/');
        let e = Seq::<char>::empty();
        assert(e + seq!['/'] + j =~= q);
        lemma_segments_concat(e, j);
        assert(segments(e) == seq![e]);
        if st.len() == 0 {
            lemma_segment_components_of_empty_piece();
            assert(segments(q) == seq![e, e]);
            assert(seq![e, e].drop_last() =~= seq![e]);
            assert(seq![e, e].last() == e);
            assert(segment_components(seq![e, e]) == segment_components(seq![e]) + segment_component(e));
            assert(segment_components(seq![e]) == segment_components(seq![e].drop_last()) + segment_component(e));
            assert(seq![e].drop_last() =~= Seq::<Seq<char>>::empty());
            assert(components(q) =~= seq![Comp::RootDir]);
            assert(normalized_components(p) =~= seq![Comp::RootDir]);
        } else {
            assert(segments(q) == seq![e] + st);
            lemma_segment_components_concat(seq![e], st);
            assert(seq![e].drop_last() =~= Seq::<Seq<char>>::empty());
            lemma_segment_components_of_empty_piece();
            assert(components(q) =~= seq![Comp::RootDir] + m);
        }
    } else {
        assert(q =~= j);
        if st.len() == 0 {
            assert(q.len() == 0);
            assert(q =~= Seq::<char>::empty());
            assert(segments(q) == seq![Seq::<char>::empty()]);
            assert(seq![Seq::<char>::empty()].drop_last() =~= Seq::<Seq<char>>::empty());
            lemma_segment_components_of_empty_piece();
            assert(components(q) =~= Seq::<Comp>::empty());
            assert(normalized_components(p) =~= Seq::<Comp>::empty());
        } else {
            assert(q[0] != '/');
            if q[0] == '.' {
                if st[0].len() == 1 {
                    assert(st[0] =~= seq!['.']);
                } else {
                    assert(q[1] == st[0][1]);
                }
            }
            assert(!starts_with_cur_dir(q));
            assert(components(q) =~= m);
        }
    }
}

/// Resolving `.` and `..` lexically is canonical: the normalized path, parsed
/// again, has the root (if any) followed by the remaining normal components.
/// So "the normalized path starts with the mount" and `lies_under` agree.
pub proof fn law_lies_under_is_normalized_prefix(path: Seq<char>, mount: Seq<char>)
    ensures
        components(normalized_text(path)) == normalized_components(path),
        lies_under(path, mount) == comps_start_with(
            components(normalized_text(path)),
            components(mount),
        ),
{
    lemma_components_of_normalized(path);
}

/// Normalizing twice changes nothing.
pub proof fn law_normalize_idempotent(path: Seq<char>)
    ensures
        normalized_text(normalized_text(path)) == normalized_text(path),
{
    let q = normalized_text(path);
    let st = resolved(components(path));
    lemma_components_of_normalized(path);
    let lead = if has_root(path) { seq![Comp::RootDir] } else { Seq::<Comp>::empty() };
    lemma_resolved_of_normals(lead, st);
}

} // verus!
