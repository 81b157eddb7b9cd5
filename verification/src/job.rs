//! Pattern classification: a user-supplied pattern becomes either a single
//! literal file path or a traversal specification (root, glob suffix and
//! depth bound).

use vstd::prelude::*;
use vstd::string::StrSliceExecFns;
use vstd::string::StringExecFns;

verus! {

/// The glob metacharacters: a pattern holding none of them is a literal
/// path.
pub open spec fn is_glob_char(c: char) -> bool {
    c == '*' || c == '?' || c == '['
}

pub open spec fn has_glob(s: Seq<char>) -> bool {
    exists|i: int| 0 <= i < s.len() && is_glob_char(s[i])
}

/// The path components of a pattern: its maximal runs of non-separator
/// characters, in order. Repeated, leading and trailing separators
/// contribute no component.
pub open spec fn components(s: Seq<char>) -> Seq<Seq<char>>
    decreases s.len(),
{
    if s.len() == 0 {
        Seq::empty()
    } else if s[0] == '/' {
        components(s.skip(1))
    } else {
        let rest = components(s.skip(1));
        if s.len() == 1 || s[1] == '/' {
            seq![seq![s[0]]] + rest
        } else {
            seq![seq![s[0]] + rest[0]] + rest.skip(1)
        }
    }
}

/// Components rejoined with the separator.
pub open spec fn join_slash(cs: Seq<Seq<char>>) -> Seq<char>
    decreases cs.len(),
{
    if cs.len() == 0 {
        Seq::empty()
    } else if cs.len() == 1 {
        cs[0]
    } else {
        join_slash(cs.drop_last()) + seq!['/'] + cs.last()
    }
}

/// Index of the first component holding a glob metacharacter.
pub open spec fn first_glob_idx(cs: Seq<Seq<char>>) -> int
    decreases cs.len(),
{
    if cs.len() == 0 {
        0
    } else if has_glob(cs[0]) {
        0
    } else {
        1 + first_glob_idx(cs.drop_first())
    }
}

/// Whether a glob suffix holds the recursive-wildcard marker `**`, which
/// makes the walk unbounded in depth.
pub open spec fn has_recursive(s: Seq<char>) -> bool {
    exists|i: int| 0 <= i && i + 1 < s.len() && #[trigger] s[i] == '*' && s[i + 1] == '*'
}

/// The literal root of a walk whose glob suffix starts at component `k`:
/// the components before `k` rejoined, keeping a leading separator of an
/// absolute pattern; the current directory when the pattern starts with a
/// glob component.
pub open spec fn root_text(s: Seq<char>, k: int) -> Seq<char> {
    let cs = components(s);
    let abs = s.len() > 0 && s[0] == '/';
    if k == 0 {
        if abs {
            seq!['/']
        } else {
            seq!['.', '/']
        }
    } else if abs {
        seq!['/'] + join_slash(cs.take(k))
    } else {
        join_slash(cs.take(k))
    }
}

/// A classified pattern. A pattern without glob metacharacters names one
/// file verbatim; any other pattern drives a directory walk from its
/// literal root, matching its glob suffix, descending at most `depth`
/// levels (unbounded when the suffix holds the recursive marker).
pub enum Job {
    File(String),
    Walk { root: String, glob: String, depth: Option<usize> },
}

/// The classifier's contract: how one pattern determines one job.
pub open spec fn classifies(s: Seq<char>, j: Job) -> bool {
    match j {
        Job::File(p) => !has_glob(s) && p@ == s,
        Job::Walk { root, glob, depth } => {
            let cs = components(s);
            let k = first_glob_idx(cs);
            &&& has_glob(s)
            &&& glob@ == join_slash(cs.skip(k))
            &&& root@ == root_text(s, k)
            &&& depth == if has_recursive(glob@) {
                Option::<usize>::None
            } else {
                Option::Some((cs.len() - k) as usize)
            }
        },
    }
}

/// Splitting off a maximal leading run: if the first `k` characters hold
/// no separator and a separator (or the end) follows, they form the first
/// component.
proof fn lemma_components_run(s: Seq<char>, k: int)
    requires
        0 < k <= s.len(),
        forall|j: int| 0 <= j < k ==> s[j] != '/',
        k == s.len() || s[k] == '/',
    ensures
        components(s) =~~= seq![s.take(k)] + components(s.skip(k)),
    decreases k,
{
    if k == 1 {
        assert(s.take(1) =~= seq![s[0]]);
    } else {
        lemma_components_run(s.skip(1), k - 1);
        let rest = components(s.skip(1));
        assert(s.skip(1).skip(k - 1) =~= s.skip(k));
        assert(rest =~~= seq![s.skip(1).take(k - 1)] + components(s.skip(k)));
        assert(rest[0] == s.skip(1).take(k - 1));
        assert(seq![s[0]] + s.skip(1).take(k - 1) =~= s.take(k));
        assert(rest.skip(1) =~~= components(s.skip(k)));
    }
}

/// Every glob metacharacter of a pattern lies inside some component, the
/// separator being no metacharacter.
proof fn lemma_glob_in_component(s: Seq<char>)
    requires
        has_glob(s),
    ensures
        exists|i: int|
            0 <= i < components(s).len() && has_glob(#[trigger] components(s)[i]),
    decreases s.len(),
{
    let cs = components(s);
    let g = choose|g: int| 0 <= g < s.len() && is_glob_char(s[g]);
    if s[0] == '/' {
        assert(g >= 1);
        assert(is_glob_char(s.skip(1)[g - 1]));
        lemma_glob_in_component(s.skip(1));
    } else {
        let rest = components(s.skip(1));
        if s.len() == 1 || s[1] == '/' {
            if g == 0 {
                assert(cs[0] == seq![s[0]]);
                assert(is_glob_char(cs[0][0]));
                assert(has_glob(cs[0]));
            } else {
                assert(is_glob_char(s.skip(1)[g - 1]));
                lemma_glob_in_component(s.skip(1));
                let i = choose|i: int| 0 <= i < rest.len() && has_glob(#[trigger] rest[i]);
                assert(cs[i + 1] == rest[i]);
                assert(has_glob(cs[i + 1]));
            }
        } else {
            if g == 0 {
                assert(cs[0][0] == s[0]);
                assert(is_glob_char(cs[0][0]));
                assert(has_glob(cs[0]));
            } else {
                assert(is_glob_char(s.skip(1)[g - 1]));
                lemma_glob_in_component(s.skip(1));
                let i = choose|i: int| 0 <= i < rest.len() && has_glob(#[trigger] rest[i]);
                if i == 0 {
                    let t = choose|t: int| 0 <= t < rest[0].len() && is_glob_char(rest[0][t]);
                    assert(cs[0][t + 1] == rest[0][t]);
                    assert(is_glob_char(cs[0][t + 1]));
                    assert(has_glob(cs[0]));
                } else {
                    assert(cs[i] == rest.skip(1)[i - 1]);
                    assert(cs[i] == rest[i]);
                    assert(has_glob(cs[i]));
                }
            }
        }
    }
}

/// The first index whose component holds a metacharacter, when the
/// components before it hold none, is `first_glob_idx`.
proof fn lemma_first_glob_idx_is(cs: Seq<Seq<char>>, i: int)
    requires
        0 <= i < cs.len(),
        has_glob(cs[i]),
        forall|j: int| 0 <= j < i ==> !has_glob(#[trigger] cs[j]),
    ensures
        first_glob_idx(cs) == i,
    decreases i,
{
    if i > 0 {
        assert(!has_glob(cs[0]));
        assert(cs.drop_first()[i - 1] == cs[i]);
        assert(forall|j: int| 0 <= j < i - 1 ==> cs.drop_first()[j] == cs[j + 1]);
        lemma_first_glob_idx_is(cs.drop_first(), i - 1);
    }
}

/// Whether a pattern holds any glob metacharacter.
pub fn is_glob(s: &str) -> (r: bool)
    ensures
        r == has_glob(s@),
{
    let n = s.unicode_len();
    let mut i: usize = 0;
    while i < n
        invariant
            n == s@.len(),
            0 <= i <= n,
            forall|j: int| 0 <= j < i ==> !is_glob_char(s@[j]),
        decreases n - i,
    {
        let c = s.get_char(i);
        if c == '*' || c == '?' || c == '[' {
            assert(is_glob_char(s@[i as int]));
            return true;
        }
        i = i + 1;
    }
    false
}

/// Split a pattern into its path components.
fn split_components(s: &str) -> (v: Vec<String>)
    ensures
        v@.map_values(|c: String| c@) == components(s@),
{
    let n = s.unicode_len();
    let mut v: Vec<String> = Vec::new();
    let mut i: usize = 0;
    proof {
        assert(s@.skip(0) =~= s@);
        assert(v@.map_values(|c: String| c@) + components(s@.skip(0)) =~~= components(s@));
    }
    while i < n
        invariant
            n == s@.len(),
            0 <= i <= n,
            v@.map_values(|c: String| c@) + components(s@.skip(i as int)) =~~= components(s@),
        decreases n - i,
    {
        let c = s.get_char(i);
        if c == '/' {
            proof {
                assert(s@.skip(i as int)[0] == '/');
                assert(s@.skip(i as int).skip(1) =~= s@.skip(i + 1));
            }
            i = i + 1;
        } else {
            let start = i;
            let mut j: usize = i;
            while j < n
                invariant_except_break
                    n == s@.len(),
                    i <= j <= n,
                    forall|t: int| i <= t < j ==> s@[t] != '/',
                ensures
                    i <= j <= n,
                    forall|t: int| i <= t < j ==> s@[t] != '/',
                    j == n || s@[j as int] == '/',
                decreases n - j,
            {
                if s.get_char(j) == '/' {
                    break ;
                }
                j = j + 1;
            }
            assert(j > i);
            let piece = s.substring_char(start, j);
            let owned = piece.to_owned();
            proof {
                let sub = s@.skip(i as int);
                let k = j - i;
                assert(forall|t: int| 0 <= t < k ==> sub[t] == s@[i + t] && s@[i + t] != '/');
                assert(k == sub.len() || sub[k as int] == '/');
                lemma_components_run(sub, k as int);
                assert(sub.take(k as int) =~= s@.subrange(i as int, j as int));
                assert(sub.skip(k as int) =~= s@.skip(j as int));
                assert(owned@ == s@.subrange(i as int, j as int));
                assert(v@.push(owned).map_values(|c: String| c@) =~~= v@.map_values(
                    |c: String| c@,
                ).push(owned@));
                assert(v@.push(owned).map_values(|c: String| c@) + components(s@.skip(j as int))
                    =~~= v@.map_values(|c: String| c@) + components(sub));
            }
            v.push(owned);
            i = j;
        }
    }
    proof {
        assert(s@.skip(n as int) =~= Seq::<char>::empty());
        assert(components(Seq::<char>::empty()) =~~= Seq::<Seq<char>>::empty());
        assert(v@.map_values(|c: String| c@) =~~= components(s@));
    }
    v
}

/// Whether a glob suffix holds the recursive-wildcard marker.
fn has_recursive_marker(g: &str) -> (r: bool)
    ensures
        r == has_recursive(g@),
{
    let n = g.unicode_len();
    if n < 2 {
        return false;
    }
    let mut i: usize = 0;
    while i + 1 < n
        invariant
            n == g@.len(),
            0 <= i,
            i + 1 <= n,
            forall|t: int| 0 <= t && t < i ==> !(#[trigger] g@[t] == '*' && g@[t + 1] == '*'),
        decreases n - i,
    {
        if g.get_char(i) == '*' && g.get_char(i + 1) == '*' {
            assert(g@[i as int] == '*' && g@[i + 1] == '*');
            return true;
        }
        i = i + 1;
    }
    false
}

/// Rejoin the components `from .. to` with the separator.
fn join_components(v: &Vec<String>, from: usize, to: usize) -> (r: String)
    requires
        from < to <= v@.len(),
    ensures
        r@ == join_slash(v@.map_values(|c: String| c@).subrange(from as int, to as int)),
{
    let ghost cs = v@.map_values(|c: String| c@);
    let mut out = v[from].clone();
    let mut t: usize = from + 1;
    proof {
        assert(cs.subrange(from as int, from + 1) =~= seq![cs[from as int]]);
        assert(join_slash(cs.subrange(from as int, from + 1)) == cs[from as int]);
    }
    while t < to
        invariant
            from < t <= to <= v@.len(),
            cs == v@.map_values(|c: String| c@),
            out@ == join_slash(cs.subrange(from as int, t as int)),
        decreases to - t,
    {
        proof {
            reveal_strlit("/");
            assert("/"@ =~= seq!['/']);
            assert(cs.subrange(from as int, t + 1).drop_last() =~= cs.subrange(
                from as int,
                t as int,
            ));
            assert(cs.subrange(from as int, t + 1).last() == cs[t as int]);
        }
        out.append("/");
        let piece = &v[t];
        out.append(piece.as_str());
        t = t + 1;
    }
    out
}

impl Job {
    /// Classify one pattern. A pattern without glob metacharacters names a
    /// file verbatim; otherwise the components before the first one holding
    /// a metacharacter form the walk's root, the rest form its glob suffix,
    /// and the depth bound is the number of suffix components, unbounded
    /// when the suffix holds the recursive marker.
    pub fn new(s: &str) -> (r: Job)
        ensures
            classifies(s@, r),
    {
        if !is_glob(s) {
            return Job::File(s.to_owned());
        }
        let ghost cs = components(s@);
        let v = split_components(s);
        let mut k: usize = 0;
        while k < v.len()
            invariant_except_break
                cs == v@.map_values(|c: String| c@),
                0 <= k <= v@.len(),
                forall|j: int| 0 <= j < k ==> !has_glob(#[trigger] cs[j]),
            ensures
                cs == v@.map_values(|c: String| c@),
                0 <= k <= v@.len(),
                forall|j: int| 0 <= j < k ==> !has_glob(#[trigger] cs[j]),
                k < v@.len() ==> has_glob(cs[k as int]),
            decreases v@.len() - k,
        {
            if is_glob(v[k].as_str()) {
                break ;
            }
            k = k + 1;
        }
        proof {
            lemma_glob_in_component(s@);
            assert(k < v@.len());
            lemma_first_glob_idx_is(cs, k as int);
        }
        let glob = join_components(&v, k, v.len());
        proof {
            assert(cs.subrange(k as int, cs.len() as int) =~~= cs.skip(k as int));
        }
        let depth: Option<usize> = if has_recursive_marker(glob.as_str()) {
            Option::None
        } else {
            Option::Some(v.len() - k)
        };
        let n = s.unicode_len();
        assert(n > 0);
        let abs = s.get_char(0) == '/';
        let root: String = if k == 0 {
            if abs {
                proof {
                    reveal_strlit("/");
                    assert("/"@ =~= seq!['/']);
                }
                String::from_str("/")
            } else {
                proof {
                    reveal_strlit("./");
                    assert("./"@ =~= seq!['.', '/']);
                }
                String::from_str("./")
            }
        } else {
            let base = join_components(&v, 0, k);
            proof {
                assert(cs.subrange(0, k as int) =~~= cs.take(k as int));
            }
            if abs {
                proof {
                    reveal_strlit("/");
                    assert("/"@ =~= seq!['/']);
                }
                let mut pre = String::from_str("/");
                pre.append(base.as_str());
                pre
            } else {
                base
            }
        };
        Job::Walk { root, glob, depth }
    }
}

} // verus!
