//! A model of how Unix paths split into components, and the file name,
//! stem and extension of a path, as `std::path` reads them.
use vstd::prelude::*;

verus! {

/// Whether the path starts at the root directory.
pub open spec fn has_root(s: Seq<char>) -> bool {
    s.len() > 0 && s[0] == '/'
}

/// Closes the run of non-separator characters `s[start..end]`: it becomes a
/// component unless it is empty or a lone `.`.
pub open spec fn close_run(s: Seq<char>, spans: Seq<(int, int)>, start: int, end: int) -> Seq<(int, int)> {
    if end > start && !(end == start + 1 && s[start] == '.') {
        spans.push((start, end))
    } else {
        spans
    }
}

/// Left-to-right scan: the spans of the components closed so far and the start
/// of the run being read.
pub open spec fn scan(s: Seq<char>) -> (Seq<(int, int)>, int)
    decreases s.len(),
{
    if s.len() == 0 {
        (Seq::empty(), 0)
    } else {
        let p = s.drop_last();
        let (sp, st) = scan(p);
        if s.last() == '/' {
            (close_run(p, sp, st, p.len() as int), s.len() as int)
        } else {
            (sp, st)
        }
    }
}

/// The spans `(start, end)` of the normal and `..` components of `s`, in order:
/// the maximal runs between separators, without empty runs and lone `.` runs.
pub open spec fn spans(s: Seq<char>) -> Seq<(int, int)> {
    let (sp, st) = scan(s);
    close_run(s, sp, st, s.len() as int)
}

/// The text of the span `sp` of `s`.
pub open spec fn piece(s: Seq<char>, sp: (int, int)) -> Seq<char> {
    s.subrange(sp.0, sp.1)
}

/// The components (other than the root and a leading `.`) as text.
pub open spec fn pieces(s: Seq<char>) -> Seq<Seq<char>> {
    spans(s).map_values(|sp: (int, int)| piece(s, sp))
}

/// `..`
pub open spec fn dot_dot() -> Seq<char> {
    seq!['.', '.']
}

/// The span of the file name of `s`: its last component, unless that is `..`.
pub open spec fn file_name_span(s: Seq<char>) -> Option<(int, int)> {
    let sp = spans(s);
    if sp.len() > 0 && piece(s, sp.last()) != dot_dot() {
        Some(sp.last())
    } else {
        None
    }
}

/// `Path::file_name`.
pub open spec fn file_name(s: Seq<char>) -> Option<Seq<char>> {
    match file_name_span(s) {
        Some(sp) => Some(piece(s, sp)),
        None => None,
    }
}

/// Index of the last `.` in `name`, if any.
pub open spec fn last_dot(name: Seq<char>) -> Option<int>
    decreases name.len(),
{
    if name.len() == 0 {
        None
    } else if name.last() == '.' {
        Some(name.len() - 1)
    } else {
        last_dot(name.drop_last())
    }
}

proof fn lemma_last_dot_bound(name: Seq<char>)
    ensures
        last_dot(name) matches Some(k) ==> 0 <= k < name.len() && name[k] == '.',
        last_dot(name) matches Some(k) ==> forall|j: int| k < j < name.len() ==> name[j] != '.',
        last_dot(name) is None ==> forall|j: int| 0 <= j < name.len() ==> name[j] != '.',
    decreases name.len(),
{
    if name.len() > 0 && name.last() != '.' {
        let p = name.drop_last();
        lemma_last_dot_bound(p);
        assert(forall|j: int| 0 <= j < p.len() ==> name[j] == #[trigger] p[j]);
        if let Some(k) = last_dot(name) {
            assert forall|j: int| k < j < name.len() implies name[j] != '.' by {
                if j < p.len() {
                    assert(name[j] == p[j]);
                }
            }
        } else {
            assert forall|j: int| 0 <= j < name.len() implies name[j] != '.' by {
                if j < p.len() {
                    assert(name[j] == p[j]);
                }
            }
        }
    }
}

/// The stem of a file name: the part before the last `.`, unless there is none
/// or it is empty (`.bashrc`).
pub open spec fn stem_of(name: Seq<char>) -> Seq<char> {
    match last_dot(name) {
        Some(k) => if k == 0 { name } else { name.take(k) },
        None => name,
    }
}

/// The extension of a file name: the part after the last `.`, when the stem is
/// not the whole name.
pub open spec fn extension_of(name: Seq<char>) -> Option<Seq<char>> {
    match last_dot(name) {
        Some(k) => if k == 0 { None } else { Some(name.skip(k + 1)) },
        None => None,
    }
}

/// `Path::file_stem`.
proof fn lemma_stem_prefix(name: Seq<char>)
    ensures
        stem_of(name) =~= name.take(stem_of(name).len() as int),
        stem_of(name).len() <= name.len(),
{
    lemma_last_dot_bound(name);
}

pub open spec fn file_stem(s: Seq<char>) -> Option<Seq<char>> {
    match file_name(s) {
        Some(n) => Some(stem_of(n)),
        None => None,
    }
}

/// `Path::extension`.
pub open spec fn extension(s: Seq<char>) -> Option<Seq<char>> {
    match file_name(s) {
        Some(n) => extension_of(n),
        None => None,
    }
}

/// `PathBuf::with_extension`: the path cut right after the file stem, then a
/// `.` and the new extension unless that is empty; unchanged without a file
/// name.
pub open spec fn with_extension(s: Seq<char>, ext: Seq<char>) -> Seq<char> {
    match file_name_span(s) {
        Some(sp) => {
            let cut = s.take(sp.0 + stem_of(piece(s, sp)).len());
            if ext.len() == 0 {
                cut
            } else {
                cut.push('.') + ext
            }
        },
        None => s,
    }
}

pub open spec fn spans_ok(s: Seq<char>, sp: Seq<(int, int)>) -> bool {
    forall|k: int| 0 <= k < sp.len() ==> 0 <= #[trigger] sp[k].0 < sp[k].1 <= s.len()
}

pub open spec fn usize_spans(v: Seq<(usize, usize)>) -> Seq<(int, int)> {
    v.map_values(|p: (usize, usize)| (p.0 as int, p.1 as int))
}

proof fn lemma_scan_ok(s: Seq<char>)
    ensures
        spans_ok(s, scan(s).0),
        0 <= scan(s).1 <= s.len(),
        forall|k: int| 0 <= k < scan(s).0.len() ==> #[trigger] scan(s).0[k].1 < scan(s).1,
    decreases s.len(),
{
    if s.len() > 0 {
        lemma_scan_ok(s.drop_last());
    }
}

proof fn lemma_spans_ok(s: Seq<char>)
    ensures
        spans_ok(s, spans(s)),
{
    lemma_scan_ok(s);
}

/// Every span lies within the text.
pub proof fn lemma_spans_ok_pub(s: Seq<char>)
    ensures
        spans_ok(s, spans(s)),
{
    lemma_spans_ok(s);
}

/// The spans come in order, each ending before the next starts.
proof fn lemma_scan_ordered(s: Seq<char>)
    ensures
        forall|i: int, j: int|
            0 <= i < j < scan(s).0.len() ==> #[trigger] scan(s).0[i].1 < #[trigger] scan(s).0[j].0,
    decreases s.len(),
{
    if s.len() > 0 {
        let p = s.drop_last();
        lemma_scan_ordered(p);
        lemma_scan_ok(p);
    }
}

pub proof fn lemma_spans_ordered(s: Seq<char>)
    ensures
        forall|i: int, j: int| 0 <= i < j < spans(s).len() ==> #[trigger] spans(s)[i].1 < #[trigger] spans(s)[j].0,
{
    lemma_scan_ordered(s);
    lemma_scan_ok(s);
}

/// The component spans of `s` (see `spans`).
pub fn component_spans(s: &Vec<char>) -> (r: Vec<(usize, usize)>)
    ensures
        usize_spans(r@) == spans(s@),
        spans_ok(s@, spans(s@)),
{
    let n = s.len();
    let mut out: Vec<(usize, usize)> = Vec::new();
    let mut start: usize = 0;
    let mut i: usize = 0;
    while i < n
        invariant
            n == s@.len(),
            i <= n,
            start <= i,
            (usize_spans(out@), start as int) == scan(s@.take(i as int)),
        decreases n - i,
    {
        let ghost p = s@.take(i as int);
        assert(s@.take(i as int + 1).drop_last() =~= p);
        if s[i] == '/' {
            if i > start && !(i == start + 1 && s[start] == '.') {
                let ghost before = out@;
                out.push((start, i));
                assert(usize_spans(out@) =~= usize_spans(before).push((start as int, i as int)));
            }
            start = i + 1;
        }
        i = i + 1;
    }
    assert(s@.take(n as int) =~= s@);
    if n > start && !(n == start + 1 && s[start] == '.') {
        let ghost before = out@;
        out.push((start, n));
        assert(usize_spans(out@) =~= usize_spans(before).push((start as int, n as int)));
    }
    proof { lemma_spans_ok(s@); }
    assert(usize_spans(out@) =~= spans(s@));
    out
}

/// Whether `s[a..b]` is `..`.
fn is_dot_dot(s: &Vec<char>, a: usize, b: usize) -> (r: bool)
    requires
        a <= b <= s@.len(),
    ensures
        r == (s@.subrange(a as int, b as int) == dot_dot()),
{
    assert(dot_dot().len() == 2 && dot_dot()[0] == '.' && dot_dot()[1] == '.');
    if b - a == 2 && s[a] == '.' && s[a + 1] == '.' {
        assert(s@.subrange(a as int, b as int) =~= dot_dot());
        true
    } else {
        if b - a == 2 {
            assert(s@.subrange(a as int, b as int)[0] == s@[a as int]);
            assert(s@.subrange(a as int, b as int)[1] == s@[a + 1]);
        }
        false
    }
}

/// The span of the file name of `s` (see `file_name_span`).
pub fn file_name_span_of(s: &Vec<char>) -> (r: Option<(usize, usize)>)
    ensures
        match r {
            Some(sp) => file_name_span(s@) == Some((sp.0 as int, sp.1 as int)) && sp.0 < sp.1 <= s@.len(),
            None => file_name_span(s@) is None,
        },
{
    let sp = component_spans(s);
    let k = sp.len();
    if k == 0 {
        return None;
    }
    let (a, b) = sp[k - 1];
    assert(usize_spans(sp@)[k - 1] == (a as int, b as int));
    if is_dot_dot(s, a, b) {
        None
    } else {
        Some((a, b))
    }
}

/// Index (from `a`) of the last `.` in `s[a..b]`.
fn last_dot_in(s: &Vec<char>, a: usize, b: usize) -> (r: Option<usize>)
    requires
        a <= b <= s@.len(),
    ensures
        match r {
            Some(k) => last_dot(s@.subrange(a as int, b as int)) == Some(k as int) && k < b - a,
            None => last_dot(s@.subrange(a as int, b as int)) is None,
        },
{
    let ghost name = s@.subrange(a as int, b as int);
    let mut j: usize = b - a;
    assert(name.take(j as int) =~= name);
    while j > 0
        invariant
            a <= b <= s@.len(),
            j <= b - a,
            name == s@.subrange(a as int, b as int),
            last_dot(name) == last_dot(name.take(j as int)),
        decreases j,
    {
        assert(name.take(j as int).drop_last() =~= name.take(j - 1));
        if s[a + j - 1] == '.' {
            return Some(j - 1);
        }
        j = j - 1;
    }
    assert(name.take(0) =~= Seq::<char>::empty());
    None
}

/// Length of the stem of the file name `s[a..b]`.
fn stem_len(s: &Vec<char>, a: usize, b: usize) -> (r: usize)
    requires
        a <= b <= s@.len(),
    ensures
        r == stem_of(s@.subrange(a as int, b as int)).len(),
        r <= b - a,
{
    match last_dot_in(s, a, b) {
        Some(k) => if k == 0 { b - a } else { k },
        None => b - a,
    }
}

/// `Path::file_stem` of `path`, when it has a file name.
pub fn file_stem_of(path: &str) -> (r: Option<String>)
    ensures
        match r {
            Some(st) => file_stem(path@) == Some(st@),
            None => file_stem(path@) is None,
        },
{
    let s = crate::text::chars_of(path);
    match file_name_span_of(&s) {
        Some((a, b)) => {
            let n = stem_len(&s, a, b);
            let st = crate::text::string_from_range(&s, a, a + n);
            proof {
                let name = s@.subrange(a as int, b as int);
                lemma_stem_prefix(name);
                assert(st@ =~= stem_of(name));
            }
            Some(st)
        },
        None => None,
    }
}

/// `Path::file_name` of `path`.
pub fn file_name_of(path: &str) -> (r: Option<String>)
    ensures
        r.deep_view() == file_name(path@),
{
    let s = crate::text::chars_of(path);
    match file_name_span_of(&s) {
        Some((a, b)) => Some(crate::text::string_from_range(&s, a, b)),
        None => None,
    }
}

/// `Path::extension` of `path`.
pub fn extension_of_path(path: &str) -> (r: Option<String>)
    ensures
        r.deep_view() == extension(path@),
{
    let s = crate::text::chars_of(path);
    match file_name_span_of(&s) {
        Some((a, b)) => match last_dot_in(&s, a, b) {
            Some(k) => if k == 0 {
                None
            } else {
                let e = crate::text::string_from_range(&s, a + k + 1, b);
                assert(e@ =~= s@.subrange(a as int, b as int).skip(k + 1));
                Some(e)
            },
            None => None,
        },
        None => None,
    }
}

/// `PathBuf::with_extension` (see `with_extension`).
pub fn with_extension_of(path: &str, ext: &str) -> (r: String)
    ensures
        r@ == with_extension(path@, ext@),
{
    let s = crate::text::chars_of(path);
    match file_name_span_of(&s) {
        Some((a, b)) => {
            let n = stem_len(&s, a, b);
            let mut r = crate::text::string_from_range(&s, 0, a + n);
            assert(r@ =~= s@.take(a + n));
            let e = crate::text::chars_of(ext);
            if e.len() == 0 {
                r
            } else {
                r.push('.');
                r.append(ext);
                r
            }
        },
        None => path.to_owned(),
    }
}

/// `/p1/p2/.../pn`, and `/` for no components.
pub open spec fn render_absolute(ps: Seq<Seq<char>>) -> Seq<char> {
    if ps.len() == 0 {
        seq!['/']
    } else {
        join_absolute(ps)
    }
}

pub open spec fn join_absolute(ps: Seq<Seq<char>>) -> Seq<char>
    decreases ps.len(),
{
    if ps.len() == 0 {
        Seq::empty()
    } else {
        join_absolute(ps.drop_last()) + seq!['/'] + ps.last()
    }
}

/// One step of lexical resolution: `..` drops the last component (none is
/// dropped above the root), anything else is appended.
pub open spec fn lexical_step(acc: Seq<Seq<char>>, p: Seq<char>) -> Seq<Seq<char>> {
    if p == dot_dot() {
        if acc.len() > 0 {
            acc.drop_last()
        } else {
            acc
        }
    } else {
        acc.push(p)
    }
}

pub open spec fn lexical_fold(start: Seq<Seq<char>>, ps: Seq<Seq<char>>) -> Seq<Seq<char>>
    decreases ps.len(),
{
    if ps.len() == 0 {
        start
    } else {
        lexical_step(lexical_fold(start, ps.drop_last()), ps.last())
    }
}

/// A working directory as the operating system reports it: absolute, written
/// exactly as the rendering of its components, none of which is `..`.
pub open spec fn is_normal_absolute(cwd: Seq<char>) -> bool {
    &&& has_root(cwd)
    &&& render_absolute(pieces(cwd)) == cwd
    &&& forall|k: int| 0 <= k < pieces(cwd).len() ==> #[trigger] pieces(cwd)[k] != dot_dot()
}

/// The absolute form of `path` without touching the file system: relative
/// paths start at `cwd`, `.` is skipped and `..` removes the last component.
pub open spec fn lexical_absolute(path: Seq<char>, cwd: Seq<char>) -> Seq<char> {
    let start = if has_root(path) {
        Seq::empty()
    } else {
        pieces(cwd)
    };
    render_absolute(lexical_fold(start, pieces(path)))
}

/// The components of `s` as strings (see `pieces`).
pub fn component_strings(s: &Vec<char>) -> (r: Vec<String>)
    ensures
        r.deep_view() == pieces(s@),
{
    let sp = component_spans(s);
    let mut out: Vec<String> = Vec::new();
    let mut k: usize = 0;
    while k < sp.len()
        invariant
            k <= sp@.len(),
            usize_spans(sp@) == spans(s@),
            spans_ok(s@, spans(s@)),
            out.deep_view() == pieces(s@).take(k as int),
        decreases sp@.len() - k,
    {
        let (a, b) = sp[k];
        assert(usize_spans(sp@)[k as int] == (a as int, b as int));
        assert(spans(s@)[k as int] == (a as int, b as int));
        let ghost before = out.deep_view();
        out.push(crate::text::string_from_range(s, a, b));
        assert(out.deep_view() =~= before.push(piece(s@, (a as int, b as int))));
        k = k + 1;
        assert(pieces(s@).take(k as int) =~= before.push(piece(s@, (a as int, b as int))));
    }
    assert(pieces(s@).take(k as int) =~= pieces(s@));
    out
}

/// Renders components as an absolute path (see `render_absolute`).
pub(crate) fn render_components(ps: &Vec<String>) -> (r: String)
    ensures
        r@ == render_absolute(ps.deep_view()),
{
    if ps.len() == 0 {
        let mut r = String::new();
        r.push('/');
        assert(r@ =~= seq!['/']);
        return r;
    }
    let mut r = String::new();
    let mut k: usize = 0;
    while k < ps.len()
        invariant
            k <= ps@.len(),
            r@ == join_absolute(ps.deep_view().take(k as int)),
        decreases ps@.len() - k,
    {
        assert(ps.deep_view().take(k + 1).drop_last() =~= ps.deep_view().take(k as int));
        r.push('/');
        r.append(ps[k].as_str());
        k = k + 1;
    }
    assert(ps.deep_view().take(k as int) =~= ps.deep_view());
    r
}


proof fn lemma_join_absolute_rooted(ps: Seq<Seq<char>>)
    requires
        ps.len() > 0,
    ensures
        has_root(join_absolute(ps)),
    decreases ps.len(),
{
    if ps.len() > 1 {
        lemma_join_absolute_rooted(ps.drop_last());
        assert((join_absolute(ps.drop_last()) + seq!['/'] + ps.last())[0] == join_absolute(ps.drop_last())[0]);
    } else {
        assert(ps.drop_last().len() == 0);
        assert((join_absolute(ps.drop_last()) + seq!['/'] + ps.last())[0] == '/');
    }
}

/// Resolving a path lexically always gives an absolute path.
pub proof fn lemma_lexical_absolute_is_absolute(path: Seq<char>, cwd: Seq<char>)
    ensures
        has_root(lexical_absolute(path, cwd)),
{
    let start = if has_root(path) {
        Seq::empty()
    } else {
        pieces(cwd)
    };
    let ps = lexical_fold(start, pieces(path));
    if ps.len() > 0 {
        lemma_join_absolute_rooted(ps);
    }
}

/// A component as `pieces` gives them: not empty, no `/` in it, not `.`.
pub open spec fn clean_piece(p: Seq<char>) -> bool {
    &&& p.len() > 0
    &&& forall|i: int| 0 <= i < p.len() ==> p[i] != '/'
    &&& p != seq!['.']
}

/// The runs of a scan hold no `/`, and neither does the open run.
proof fn lemma_scan_runs(s: Seq<char>)
    ensures
        forall|k: int, i: int|
            #![trigger scan(s).0[k], s[i]]
            0 <= k < scan(s).0.len() && scan(s).0[k].0 <= i < scan(s).0[k].1 ==> s[i] != '/',
        forall|k: int|
            0 <= k < scan(s).0.len() ==> !(scan(s).0[k].1 == scan(s).0[k].0 + 1 && s[scan(s).0[k].0]
                == '.'),
        forall|i: int| scan(s).1 <= i < s.len() ==> s[i] != '/',
    decreases s.len(),
{
    if s.len() > 0 {
        let p = s.drop_last();
        lemma_scan_runs(p);
        lemma_scan_ok(p);
        assert(forall|i: int| 0 <= i < p.len() ==> p[i] == s[i]);
    }
}

proof fn lemma_pieces_clean(s: Seq<char>)
    ensures
        forall|k: int| 0 <= k < pieces(s).len() ==> clean_piece(#[trigger] pieces(s)[k]),
{
    lemma_scan_runs(s);
    lemma_scan_ok(s);
    let (sp, st) = scan(s);
    assert forall|k: int| 0 <= k < pieces(s).len() implies clean_piece(#[trigger] pieces(s)[k]) by {
        let q = spans(s)[k];
        let pc = s.subrange(q.0, q.1);
        assert(pieces(s)[k] == pc);
        if k < sp.len() {
            assert(q == sp[k]);
        } else {
            assert(q == (st, s.len() as int));
        }
        assert forall|i: int| 0 <= i < pc.len() implies pc[i] != '/' by {
            assert(pc[i] == s[q.0 + i]);
        }
        if pc == seq!['.'] {
            assert(pc[0] == s[q.0]);
        }
    }
}

/// Text without `/` leaves a scan as it was.
proof fn lemma_scan_no_slash(s: Seq<char>, q: Seq<char>)
    requires
        forall|i: int| 0 <= i < q.len() ==> q[i] != '/',
    ensures
        scan(s + q) == scan(s),
    decreases q.len(),
{
    if q.len() > 0 {
        lemma_scan_no_slash(s, q.drop_last());
        assert((s + q).drop_last() =~= s + q.drop_last());
        assert((s + q).last() == q.last());
    }
}

/// Adding `/` and a clean component adds exactly that component.
proof fn lemma_spans_push(j: Seq<char>, p: Seq<char>)
    requires
        clean_piece(p),
    ensures
        spans(j + seq!['/'] + p) == spans(j).push((j.len() + 1int, j.len() + 1int + p.len())),
{
    let js = j + seq!['/'];
    assert(js.drop_last() =~= j);
    lemma_scan_no_slash(js, p);
    let (sp, st) = scan(j);
    lemma_scan_ok(j);
    assert(scan(js) == (close_run(j, sp, st, j.len() as int), j.len() + 1int));
    assert(spans(j) == close_run(j, sp, st, j.len() as int));
    let full = js + p;
    assert(full =~= j + seq!['/'] + p);
    if p.len() == 1 {
        assert(full[j.len() + 1int] == p[0]);
        if p[0] == '.' {
            assert(p =~= seq!['.']);
        }
    }
}

proof fn lemma_pieces_of_join(ps: Seq<Seq<char>>)
    requires
        forall|k: int| 0 <= k < ps.len() ==> clean_piece(#[trigger] ps[k]),
    ensures
        pieces(join_absolute(ps)) == ps,
    decreases ps.len(),
{
    if ps.len() == 0 {
        assert(pieces(Seq::<char>::empty()) =~= Seq::<Seq<char>>::empty());
    } else {
        let init = ps.drop_last();
        let j = join_absolute(init);
        let p = ps.last();
        lemma_pieces_of_join(init);
        lemma_spans_push(j, p);
        let full = j + seq!['/'] + p;
        lemma_spans_ok(j);
        assert forall|k: int| 0 <= k < pieces(full).len() implies pieces(full)[k] == ps[k] by {
            if k < init.len() {
                let q = spans(j)[k];
                assert(spans(full)[k] == q);
                assert(full.subrange(q.0, q.1) =~= j.subrange(q.0, q.1));
                assert(pieces(j)[k] == ps[k]);
            } else {
                assert(full.subrange(j.len() + 1int, j.len() + 1int + p.len()) =~= p);
            }
        }
        assert(pieces(full) =~= ps);
    }
}

proof fn lemma_fold_clean(start: Seq<Seq<char>>, ps: Seq<Seq<char>>)
    requires
        forall|k: int| 0 <= k < start.len() ==> clean_piece(#[trigger] start[k]) && start[k] != dot_dot(),
        forall|k: int| 0 <= k < ps.len() ==> clean_piece(#[trigger] ps[k]),
    ensures
        forall|k: int|
            0 <= k < lexical_fold(start, ps).len() ==> clean_piece(#[trigger] lexical_fold(start, ps)[k])
                && lexical_fold(start, ps)[k] != dot_dot(),
    decreases ps.len(),
{
    if ps.len() > 0 {
        lemma_fold_clean(start, ps.drop_last());
        let acc = lexical_fold(start, ps.drop_last());
        let p = ps.last();
        assert(p == ps[ps.len() - 1]);
        assert(lexical_fold(start, ps) == lexical_step(acc, p));
        if p == dot_dot() {
            if acc.len() > 0 {
                assert forall|k: int| 0 <= k < acc.len() - 1 implies acc.drop_last()[k] == acc[k] by {}
            }
        } else {
            assert forall|k: int| 0 <= k < acc.len() + 1 implies acc.push(p)[k] == (if k < acc.len() {
                acc[k]
            } else {
                p
            }) by {}
        }
    }
}

proof fn lemma_fold_plain(ps: Seq<Seq<char>>)
    requires
        forall|k: int| 0 <= k < ps.len() ==> #[trigger] ps[k] != dot_dot(),
    ensures
        lexical_fold(Seq::empty(), ps) == ps,
    decreases ps.len(),
{
    if ps.len() > 0 {
        lemma_fold_plain(ps.drop_last());
        assert(ps.last() == ps[ps.len() - 1]);
        assert(ps.drop_last().push(ps.last()) =~= ps);
    }
}

/// Resolving is idempotent: the absolute form of a path, resolved again
/// against any working directory, stays as it is.
pub proof fn lemma_lexical_absolute_idempotent(path: Seq<char>, cwd: Seq<char>, other_cwd: Seq<char>)
    requires
        is_normal_absolute(cwd),
    ensures
        lexical_absolute(lexical_absolute(path, cwd), other_cwd) == lexical_absolute(path, cwd),
{
    let start = if has_root(path) {
        Seq::empty()
    } else {
        pieces(cwd)
    };
    lemma_pieces_clean(cwd);
    lemma_pieces_clean(path);
    lemma_fold_clean(start, pieces(path));
    let ps = lexical_fold(start, pieces(path));
    let once = lexical_absolute(path, cwd);
    assert(once == render_absolute(ps));
    lemma_lexical_absolute_is_absolute(path, cwd);
    if ps.len() == 0 {
        let root = seq!['/'];
        assert(root.drop_last() =~= Seq::<char>::empty());
        assert(scan(Seq::<char>::empty()) == (Seq::<(int, int)>::empty(), 0int));
        assert(scan(root) == (Seq::<(int, int)>::empty(), 1int));
        assert(spans(root) =~= Seq::<(int, int)>::empty());
        assert(pieces(root) =~= Seq::<Seq<char>>::empty());
    } else {
        lemma_pieces_of_join(ps);
    }
    assert(pieces(once) == ps);
    lemma_fold_plain(ps);
}


/// A resolved path has no `.` or `..` component: each of its components is a
/// plain name (not empty, without `/`, not `.`), and none is `..`.
pub proof fn lemma_lexical_absolute_components(path: Seq<char>, cwd: Seq<char>)
    requires
        is_normal_absolute(cwd),
    ensures
        forall|k: int| 0 <= k < pieces(lexical_absolute(path, cwd)).len() ==> {
            &&& clean_piece(#[trigger] pieces(lexical_absolute(path, cwd))[k])
            &&& pieces(lexical_absolute(path, cwd))[k] != dot_dot()
        },
{
    let start = if has_root(path) {
        Seq::empty()
    } else {
        pieces(cwd)
    };
    lemma_pieces_clean(cwd);
    lemma_pieces_clean(path);
    lemma_fold_clean(start, pieces(path));
    let ps = lexical_fold(start, pieces(path));
    if ps.len() == 0 {
        let root = seq!['/'];
        assert(root.drop_last() =~= Seq::<char>::empty());
        assert(scan(Seq::<char>::empty()) == (Seq::<(int, int)>::empty(), 0int));
        assert(scan(root) == (Seq::<(int, int)>::empty(), 1int));
        assert(spans(root) =~= Seq::<(int, int)>::empty());
        assert(pieces(root) =~= Seq::<Seq<char>>::empty());
    } else {
        lemma_pieces_of_join(ps);
    }
    assert(pieces(lexical_absolute(path, cwd)) == ps);
}


/// Every span, and the open run of a scan, starts at the beginning of the
/// text or right after a `/`.
proof fn lemma_scan_starts(s: Seq<char>)
    ensures
        forall|k: int| 0 <= k < scan(s).0.len() ==> #[trigger] scan(s).0[k].0 == 0 || s[scan(s).0[k].0 - 1] == '/',
        scan(s).1 == 0 || s[scan(s).1 - 1] == '/',
    decreases s.len(),
{
    if s.len() > 0 {
        let p = s.drop_last();
        lemma_scan_starts(p);
        lemma_scan_ok(p);
        assert(forall|i: int| 0 <= i < p.len() ==> p[i] == #[trigger] s[i]);
    }
}

/// Text without `.` after some text leaves its last `.` where it was.
proof fn lemma_last_dot_suffix(x: Seq<char>, e: Seq<char>)
    requires
        forall|i: int| 0 <= i < e.len() ==> e[i] != '.',
    ensures
        last_dot(x + e) == last_dot(x),
    decreases e.len(),
{
    if e.len() > 0 {
        lemma_last_dot_suffix(x, e.drop_last());
        assert((x + e).drop_last() =~= x + e.drop_last());
        assert((x + e).last() == e[e.len() - 1]);
    } else {
        assert(x + e =~= x);
    }
}

/// Changing the extension to a plain one (not empty, without `.` or `/`)
/// keeps the path up to its file name and makes the file name the old stem,
/// a `.` and the new extension: the new path has the old stem, the new
/// extension, and the old path's directory part.
pub proof fn lemma_with_extension_parts(path: Seq<char>, ext: Seq<char>)
    requires
        file_name(path) is Some,
        ext.len() > 0,
        forall|i: int| 0 <= i < ext.len() ==> ext[i] != '.' && ext[i] != '/',
    ensures
        file_name(with_extension(path, ext)) == Some(file_stem(path).unwrap() + seq!['.'] + ext),
        file_stem(with_extension(path, ext)) == file_stem(path),
        extension(with_extension(path, ext)) == Some(ext),
        with_extension(path, ext).take(file_name_span(path).unwrap().0) == path.take(file_name_span(path).unwrap().0),
        file_name_span(with_extension(path, ext)).unwrap().0 == file_name_span(path).unwrap().0,
{
    let sp = file_name_span(path).unwrap();
    let name = piece(path, sp);
    let stem = stem_of(name);
    let name2 = stem + seq!['.'] + ext;
    let dir = path.take(sp.0);
    lemma_spans_ok(path);
    lemma_pieces_clean(path);
    lemma_scan_starts(path);
    lemma_scan_ok(path);
    assert(pieces(path)[spans(path).len() - 1] == name);
    assert(clean_piece(name));
    lemma_stem_prefix(name);
    lemma_last_dot_bound(name);
    assert(stem.len() > 0);
    assert forall|i: int| 0 <= i < stem.len() implies stem[i] != '/' by {
        assert(stem[i] == name[i]);
    }
    // The new path is the directory part followed by the new file name.
    let cut = path.take(sp.0 + stem.len());
    assert(cut =~= dir + stem) by {
        assert forall|i: int| sp.0 <= i < sp.0 + stem.len() implies path[i] == stem[i - sp.0] by {
            assert(name[i - sp.0] == path[i]);
        }
    }
    assert(with_extension(path, ext) == cut.push('.') + ext);
    assert(with_extension(path, ext) =~= dir + name2);
    // The file name span starts at the text's beginning or right after a `/`.
    let (csp, st) = scan(path);
    assert(sp.0 == 0 || path[sp.0 - 1] == '/') by {
        if spans(path).len() > csp.len() {
            assert(sp == (st, path.len() as int));
        } else {
            assert(sp == csp[csp.len() - 1]);
        }
    }
    // The new file name is clean, and it is not `..`.
    assert(clean_piece(name2)) by {
        assert forall|i: int| 0 <= i < name2.len() implies name2[i] != '/' by {
            if i < stem.len() {
                assert(name2[i] == stem[i]);
            } else if i > stem.len() {
                assert(name2[i] == ext[i - stem.len() - 1]);
            }
        }
        assert(name2.len() >= 3);
    }
    assert(name2 != dot_dot()) by {
        assert(name2.len() >= 3);
    }
    let np = with_extension(path, ext);
    if sp.0 == 0 {
        assert(np =~= name2);
        lemma_scan_no_slash(Seq::<char>::empty(), name2);
        assert(Seq::<char>::empty() + name2 =~= name2);
        assert(scan(name2) == (Seq::<(int, int)>::empty(), 0int));
        if name2.len() == 1 {
            assert(false);
        }
        assert(spans(name2) =~= seq![(0int, name2.len() as int)]);
        assert(piece(name2, (0int, name2.len() as int)) =~= name2);
    } else {
        let j = path.take(sp.0 - 1);
        assert(dir =~= j + seq!['/']);
        assert(np =~= j + seq!['/'] + name2);
        lemma_spans_push(j, name2);
        assert(piece(np, (j.len() + 1int, j.len() + 1int + name2.len())) =~= name2);
    }
    assert(file_name(np) == Some(name2));
    // The stem and extension of the new file name.
    lemma_last_dot_suffix(stem + seq!['.'], ext);
    assert(name2 =~= (stem + seq!['.']) + ext);
    assert((stem + seq!['.']).last() == '.');
    assert(last_dot(stem + seq!['.']) == Some(stem.len() as int));
    assert(last_dot(name2) == Some(stem.len() as int));
    assert(name2.take(stem.len() as int) =~= stem);
    assert(name2.skip(stem.len() + 1int) =~= ext);
    assert(np.take(sp.0) =~= dir);
}


/// A file name has a stem that is not empty.
pub proof fn lemma_file_stem_nonempty(path: Seq<char>)
    requires
        file_name(path) is Some,
    ensures
        file_stem(path).unwrap().len() > 0,
{
    let sp = file_name_span(path).unwrap();
    let name = piece(path, sp);
    lemma_spans_ok(path);
    lemma_pieces_clean(path);
    assert(pieces(path)[spans(path).len() - 1] == name);
    assert(clean_piece(name));
    lemma_stem_prefix(name);
    lemma_last_dot_bound(name);
}

} // verus!
