//! Lexical path normalization: `.` and empty components are dropped and
//! `..` removes the component before it, without asking the file system.
use vstd::prelude::*;
use vstd::string::*;

verus! {

/// The components kept after reading segment `seg`.
pub open spec fn apply_segment(comps: Seq<Seq<char>>, seg: Seq<char>) -> Seq<Seq<char>> {
    if seg.len() == 0 || seg == seq!['.'] {
        comps
    } else if seg == seq!['.', '.'] {
        if comps.len() > 0 {
            comps.drop_last()
        } else {
            comps
        }
    } else {
        comps.push(seg)
    }
}

/// The components kept, and the segment being read, after reading `s`.
pub open spec fn scan(s: Seq<char>) -> (Seq<Seq<char>>, Seq<char>)
    decreases s.len(),
{
    if s.len() == 0 {
        (Seq::empty(), Seq::empty())
    } else {
        let (comps, seg) = scan(s.drop_last());
        if s.last() == '/' {
            (apply_segment(comps, seg), Seq::empty())
        } else {
            (comps, seg.push(s.last()))
        }
    }
}

/// The normal components of path `s`, in order.
pub open spec fn components(s: Seq<char>) -> Seq<Seq<char>> {
    apply_segment(scan(s).0, scan(s).1)
}

/// The components joined by `/`.
pub open spec fn join(comps: Seq<Seq<char>>) -> Seq<char>
    decreases comps.len(),
{
    if comps.len() == 0 {
        Seq::empty()
    } else if comps.len() == 1 {
        comps[0]
    } else {
        join(comps.drop_last()) + seq!['/'] + comps.last()
    }
}

/// The normalized form of path `s`: `/` first where `s` is absolute, then
/// its normal components joined by `/`.
pub open spec fn canonical(s: Seq<char>) -> Seq<char> {
    if is_absolute(s) {
        seq!['/'] + join(components(s))
    } else {
        join(components(s))
    }
}

/// The views of a sequence of string slices.
pub open spec fn str_views(s: Seq<&str>) -> Seq<Seq<char>> {
    s.map_values(|x: &str| x@)
}

fn push_segment<'a>(comps: &mut Vec<&'a str>, seg: &'a str)
    ensures
        str_views(final(comps)@) == apply_segment(str_views(old(comps)@), seg@),
{
    let n = seg.unicode_len();
    if n == 0 || (n == 1 && seg.get_char(0) == '.') {
        proof {
            if n == 1 {
                assert(seg@ =~= seq!['.']);
            }
        }
    } else if n == 2 && seg.get_char(0) == '.' && seg.get_char(1) == '.' {
        proof {
            assert(seg@ =~= seq!['.', '.']);
        }
        if comps.len() > 0 {
            comps.pop();
            proof {
                assert(str_views(comps@) =~= str_views(old(comps)@).drop_last());
            }
        }
    } else {
        proof {
            assert(seg@ != seq!['.']) by {
                if n == 1 {
                    assert(seg@[0] != '.');
                }
            }
            assert(seg@ != seq!['.', '.']) by {
                if n == 2 {
                    assert(seg@[0] != '.' || seg@[1] != '.');
                }
            }
        }
        comps.push(seg);
        proof {
            assert(str_views(comps@) =~= str_views(old(comps)@).push(seg@));
        }
    }
}

/// The normal components of `path` (see `components`).
pub fn path_components(path: &str) -> (r: Vec<&str>)
    ensures
        str_views(r@) == components(path@),
{
    let n = path.unicode_len();
    let mut comps: Vec<&str> = Vec::new();
    let mut start: usize = 0;
    let mut i: usize = 0;
    while i < n
        invariant
            n == path@.len(),
            start <= i <= n,
            scan(path@.take(i as int)) == (str_views(comps@), path@.subrange(start as int, i as int)),
        decreases n - i,
    {
        proof {
            assert(path@.take(i + 1).drop_last() =~= path@.take(i as int));
            assert(path@.take(i + 1).last() == path@[i as int]);
        }
        if path.get_char(i) == '/' {
            let seg = path.substring_char(start, i);
            push_segment(&mut comps, seg);
            start = i + 1;
            proof {
                assert(path@.subrange(start as int, (i + 1) as int) =~= Seq::<char>::empty());
            }
        } else {
            proof {
                assert(path@.subrange(start as int, i + 1) =~= path@.subrange(start as int, i as int).push(
                    path@[i as int],
                ));
            }
        }
        i = i + 1;
    }
    let last = path.substring_char(start, n);
    push_segment(&mut comps, last);
    proof {
        assert(path@.take(n as int) =~= path@);
    }
    comps
}

/// Whether `path` is absolute: it starts with `/`.
pub open spec fn is_absolute(path: Seq<char>) -> bool {
    path.len() > 0 && path[0] == '/'
}

/// Whether `path` starts with `/`.
pub fn absolute(path: &str) -> (r: bool)
    ensures
        r == is_absolute(path@),
{
    path.unicode_len() > 0 && path.get_char(0) == '/'
}

/// `head` followed by the components `comps[from..]` joined by `/`.
pub fn join_components(head: String, comps: &Vec<&str>, from: usize) -> (r: String)
    requires
        from <= comps@.len(),
    ensures
        r@ == head@ + join(str_views(comps@).skip(from as int)),
{
    let ghost cs = str_views(comps@).skip(from as int);
    let mut r = head;
    let ghost start = r@;
    let mut k: usize = from;
    while k < comps.len()
        invariant
            cs == str_views(comps@).skip(from as int),
            from <= k <= comps@.len(),
            r@ == start + join(cs.take(k - from)),
        decreases comps@.len() - k,
    {
        proof {
            reveal_strlit("/");
            assert(cs.take(k - from + 1).drop_last() =~= cs.take(k - from));
            assert(cs.take(k - from + 1).last() == comps@[k as int]@);
        }
        if k > from {
            r.append("/");
            r.append(comps[k]);
            proof {
                assert(r@ =~= start + (join(cs.take(k - from)) + seq!['/'] + comps@[k as int]@));
            }
        } else {
            r.append(comps[k]);
            proof {
                assert(join(cs.take(0)) =~= Seq::<char>::empty());
                assert(cs.take(1)[0] == comps@[k as int]@);
                assert(r@ =~= start + join(cs.take(1)));
            }
        }
        k = k + 1;
    }
    proof {
        assert(cs.take(k - from) =~= cs);
    }
    r
}

/// The normalized form of `path` (see `canonical`).
pub fn canonicalize(path: &str) -> (r: String)
    ensures
        r@ == canonical(path@),
{
    let comps = path_components(path);
    let head = if absolute(path) {
        String::from_str("/")
    } else {
        String::new()
    };
    proof {
        reveal_strlit("/");
        assert(str_views(comps@).skip(0) =~= str_views(comps@));
    }
    join_components(head, &comps, 0)
}

/// Paths that can be normalized lexically.
pub trait PathExt {
    /// The path as characters.
    spec fn path_view(&self) -> Seq<char>;

    /// The normalized form of the path (see `canonical`); the file system is
    /// not consulted, so components need not exist.
    fn canonicalize_unchecked(&self) -> (r: String)
        ensures
            r@ == canonical(self.path_view()),
    ;
}

impl PathExt for str {
    open spec fn path_view(&self) -> Seq<char> {
        self@
    }

    fn canonicalize_unchecked(&self) -> (r: String) {
        canonicalize(self)
    }
}

} // verus!
