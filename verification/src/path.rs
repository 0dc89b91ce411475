use vstd::prelude::*;
use vstd::string::{StrSliceExecFns, StringExecFns};

verus! {

/// Index where the file-name part of a path begins: just past the last `'/'`
/// (0 when the path has no separator).
pub open spec fn name_start(t: Seq<char>) -> int
    decreases t.len(),
{
    if t.len() == 0 {
        0
    } else if t.last() == '/' {
        t.len() as int
    } else {
        name_start(t.drop_last())
    }
}

/// `name_start` points just past the last separator: nothing after it is a
/// separator, and the character before it (if any) is one.
pub proof fn lemma_name_start(t: Seq<char>)
    ensures
        0 <= name_start(t) <= t.len(),
        forall|k: int| name_start(t) <= k < t.len() ==> t[k] != '/',
        name_start(t) > 0 ==> t[name_start(t) - 1] == '/',
    decreases t.len(),
{
    if t.len() > 0 && t.last() != '/' {
        lemma_name_start(t.drop_last());
        assert forall|k: int| name_start(t) <= k < t.len() implies t[k] != '/' by {
            if k < t.len() - 1 {
                assert(t.drop_last()[k] == t[k]);
            }
        }
        if name_start(t) > 0 {
            assert(t.drop_last()[name_start(t) - 1] == t[name_start(t) - 1]);
        }
    }
}

/// A separator with nothing but non-separators after it pins `name_start`.
pub proof fn lemma_name_start_at(t: Seq<char>, j: int)
    requires
        0 <= j < t.len(),
        t[j] == '/',
        forall|k: int| j < k < t.len() ==> t[k] != '/',
    ensures
        name_start(t) == j + 1,
    decreases t.len(),
{
    if t.last() != '/' {
        assert(t.drop_last()[j] == t[j]);
        assert forall|k: int| j < k < t.len() - 1 implies t.drop_last()[k] != '/' by {
            assert(t.drop_last()[k] == t[k]);
        }
        lemma_name_start_at(t.drop_last(), j);
    }
}

/// A path with no separator at all has its name at the very start.
pub proof fn lemma_name_start_none(t: Seq<char>)
    requires
        forall|k: int| 0 <= k < t.len() ==> t[k] != '/',
    ensures
        name_start(t) == 0,
    decreases t.len(),
{
    if t.len() > 0 {
        assert forall|k: int| 0 <= k < t.len() - 1 implies t.drop_last()[k] != '/' by {
            assert(t.drop_last()[k] == t[k]);
        }
        lemma_name_start_none(t.drop_last());
    }
}

/// The path with its trailing separators removed.
pub open spec fn trim_slashes(t: Seq<char>) -> Seq<char>
    decreases t.len(),
{
    if t.len() > 0 && t.last() == '/' {
        trim_slashes(t.drop_last())
    } else {
        t
    }
}

/// Trimming removes exactly the maximal run of trailing separators.
pub proof fn lemma_trim_slashes(t: Seq<char>, end: int)
    requires
        0 <= end <= t.len(),
        forall|k: int| end <= k < t.len() ==> t[k] == '/',
        end > 0 ==> t[end - 1] != '/',
    ensures
        trim_slashes(t) =~= t.subrange(0, end),
    decreases t.len(),
{
    if t.len() > end {
        assert forall|k: int| end <= k < t.len() - 1 implies t.drop_last()[k] == '/' by {
            assert(t.drop_last()[k] == t[k]);
        }
        if end > 0 {
            assert(t.drop_last()[end - 1] == t[end - 1]);
        }
        lemma_trim_slashes(t.drop_last(), end);
        assert(t.drop_last().subrange(0, end) =~= t.subrange(0, end));
    }
}

/// The file-name part of a path: the characters past the last `'/'`, with
/// trailing separators ignored, or nothing when that component is empty or
/// one of the relative components `"."` and `".."`.  Relative components are
/// not resolved: a path ending in `"."` or `".."` has no usable name
/// (resolution cleans paths before the core sees them).
pub open spec fn name_spec(t: Seq<char>) -> Option<Seq<char>> {
    let u = trim_slashes(t);
    let s = u.subrange(name_start(u), u.len() as int);
    if s.len() == 0 || s == "."@ || s == ".."@ {
        None
    } else {
        Some(s)
    }
}

/// A filesystem path, as the character string that names it plus whether it
/// named a directory when it was resolved.  Resolution against the file
/// system happens outside the core; the core only reads the recorded answer.
#[derive(Debug)]
pub struct Path {
    pub text: String,
    pub dir: bool,
}

impl Path {
    pub fn new(text: String, dir: bool) -> (r: Path)
        ensures
            r.text == text,
            r.dir == dir,
    {
        Path { text, dir }
    }

    pub fn as_str(&self) -> (r: &str)
        ensures
            r@ == self.text@,
    {
        self.text.as_str()
    }

    /// Whether the path named a directory when it was resolved.
    pub fn is_dir(&self) -> (r: bool)
        ensures
            r == self.dir,
    {
        self.dir
    }

    /// The file-name part: the characters past the last `'/'`, trailing
    /// separators ignored, or `None` when that component is empty, `"."` or
    /// `".."`.
    pub fn name(&self) -> (r: Option<String>)
        ensures
            match r {
                Some(s) => name_spec(self.text@) == Some(s@),
                None => name_spec(self.text@) is None,
            },
    {
        let ghost t = self.text@;
        let s: &str = self.text.as_str();
        let n: usize = s.unicode_len();

        // skip trailing separators
        let mut end: usize = n;
        while end > 0 && s.get_char(end - 1) == '/'
            invariant
                end <= n,
                n == t.len(),
                s@ == t,
                forall|k: int| end <= k < n ==> t[k] == '/',
            decreases end,
        {
            end = end - 1;
        }
        proof {
            lemma_trim_slashes(t, end as int);
        }
        let ghost u = trim_slashes(t);
        let mut start: usize = end;

        // scan backwards for the last separator before the name
        while start > 0 && s.get_char(start - 1) != '/'
            invariant
                start <= end <= n,
                n == t.len(),
                s@ == t,
                u =~= t.subrange(0, end as int),
                forall|k: int| start <= k < end ==> t[k] != '/',
            decreases start,
        {
            start = start - 1;
        }

        proof {
            assert forall|k: int| start <= k < end implies u[k] != '/' by {
                assert(u[k] == t[k]);
            }
            if start > 0 {
                assert(u[start - 1] == t[start - 1]);
                lemma_name_start_at(u, start - 1);
            } else {
                lemma_name_start_none(u);
            }
            assert(u.subrange(start as int, end as int) =~= t.subrange(
                start as int,
                end as int,
            ));
        }
        let suffix: &str = s.substring_char(start, end);
        let suffix: String = String::from_str(suffix);
        let dot: String = String::from_str(".");
        let dotdot: String = String::from_str("..");
        proof {
            reveal_strlit(".");
            reveal_strlit("..");
        }
        if suffix.as_str().unicode_len() == 0 || suffix == dot || suffix == dotdot {
            None
        } else {
            Some(suffix)
        }
    }
}

} // verus!
