//! Canonical, slash-normalized source paths built by sequential joins.
//!
//! A path is seeded from a directory string whose backslashes are folded to
//! forward slashes; fragments are then joined behind exactly one slash
//! separator, except that an absolute fragment (or a URI) replaces the whole
//! accumulated path, which lets a fully-resolved file name override a
//! relative directory.

use vstd::prelude::*;
use vstd::string::StrSliceExecFns;
use vstd::string::StringExecFns;

verus! {

/// The characters of `s` with backslashes folded to forward slashes:
/// scanning left to right, a pair of backslashes becomes one slash, and a
/// lone backslash becomes a slash as well.
pub open spec fn norm_slashes(s: Seq<char>) -> Seq<char>
    decreases s.len(),
{
    if s.len() == 0 {
        Seq::<char>::empty()
    } else if s.len() >= 2 && s[0] == '\\' && s[1] == '\\' {
        seq!['/'] + norm_slashes(s.skip(2))
    } else if s[0] == '\\' {
        seq!['/'] + norm_slashes(s.skip(1))
    } else {
        seq![s[0]] + norm_slashes(s.skip(1))
    }
}

/// `p` contains the URI scheme separator `://` somewhere.
pub open spec fn has_scheme_sep(p: Seq<char>) -> bool {
    exists|i: int|
        0 <= i && i + 3 <= p.len() && #[trigger] p[i] == ':' && p[i + 1] == '/' && p[i + 2] == '/'
}

/// A fragment replaces the accumulated path instead of being appended when
/// it is absolute (starts with a slash) or is a URI.
pub open spec fn replaces(p2: Seq<char>) -> bool {
    (p2.len() > 0 && p2[0] == '/') || has_scheme_sep(p2)
}

/// What one join step yields.
pub open spec fn joined(p1: Seq<char>, p2: Seq<char>) -> Seq<char> {
    if replaces(p2) {
        p2
    } else if p1.len() > 0 && p1.last() == '/' {
        p1 + p2
    } else {
        p1 + seq!['/'] + p2
    }
}

/// A canonical source path under construction.
pub struct Path {
    p: String,
}

impl View for Path {
    type V = Seq<char>;

    closed spec fn view(&self) -> Seq<char> {
        self.p@
    }
}

/// Relies on String::push: appends exactly the given character.
#[verifier::external_body]
fn push_char(s: &mut String, c: char)
    ensures
        final(s)@ == old(s)@.push(c),
{
    s.push(c);
}

/// Whether `s` ends with a slash.
fn ends_with_slash(s: &String) -> (r: bool)
    ensures
        r == (s@.len() > 0 && s@.last() == '/'),
{
    let n = s.as_str().unicode_len();
    if n == 0 {
        false
    } else {
        s.as_str().get_char(n - 1) == '/'
    }
}

/// Whether the fragment replaces the accumulated path (it is absolute or a
/// URI).
fn is_replacing(s: &str) -> (r: bool)
    ensures
        r == replaces(s@),
{
    let n = s.unicode_len();
    if n > 0 && s.get_char(0) == '/' {
        return true;
    }
    if n < 3 {
        return false;
    }
    let mut i: usize = 0;
    while i <= n - 3
        invariant
            n == s@.len(),
            3 <= n,
            i <= n,
            forall|j: int|
                0 <= j < i ==> !(#[trigger] s@[j] == ':' && s@[j + 1] == '/' && s@[j + 2] == '/'),
        decreases n - i,
    {
        if s.get_char(i) == ':' && s.get_char(i + 1) == '/' && s.get_char(i + 2) == '/' {
            proof {
                assert(s@[i as int] == ':' && s@[i as int + 1] == '/' && s@[i as int + 2] == '/');
            }
            return true;
        }
        i += 1;
    }
    proof {
        assert(!has_scheme_sep(s@)) by {
            if has_scheme_sep(s@) {
                let j = choose|j: int|
                    0 <= j && j + 3 <= s@.len() && #[trigger] s@[j] == ':' && s@[j + 1] == '/'
                        && s@[j + 2] == '/';
                assert(j < i);
            }
        }
    }
    false
}

impl Path {
    /// Seeds a path from `s`, folding backslashes to forward slashes.
    pub fn new(s: &str) -> (r: Path)
        ensures
            r@ == norm_slashes(s@),
    {
        let n = s.unicode_len();
        let mut p = String::new();
        let mut i: usize = 0;
        proof {
            assert(s@.skip(0) =~= s@);
            assert(p@ + norm_slashes(s@) =~= norm_slashes(s@));
        }
        while i < n
            invariant
                n == s@.len(),
                i <= n,
                norm_slashes(s@) == p@ + norm_slashes(s@.skip(i as int)),
            decreases n - i,
        {
            let ghost prev = p@;
            let ghost t = s@.skip(i as int);
            let c = s.get_char(i);
            proof {
                assert(t[0] == s@[i as int]);
            }
            if c == '\\' {
                if i + 1 < n && s.get_char(i + 1) == '\\' {
                    proof {
                        assert(t.len() >= 2 && t[1] == s@[i as int + 1]);
                        assert(t.skip(2) =~= s@.skip(i as int + 2));
                        assert(norm_slashes(t) == seq!['/'] + norm_slashes(s@.skip(i as int + 2)));
                    }
                    push_char(&mut p, '/');
                    proof {
                        assert(p@ + norm_slashes(s@.skip(i as int + 2)) =~= prev + norm_slashes(t));
                    }
                    i += 2;
                } else {
                    proof {
                        if t.len() >= 2 {
                            assert(t[1] == s@[i as int + 1]);
                        }
                        assert(t.skip(1) =~= s@.skip(i as int + 1));
                        assert(norm_slashes(t) == seq!['/'] + norm_slashes(s@.skip(i as int + 1)));
                    }
                    push_char(&mut p, '/');
                    proof {
                        assert(p@ + norm_slashes(s@.skip(i as int + 1)) =~= prev + norm_slashes(t));
                    }
                    i += 1;
                }
            } else {
                proof {
                    assert(t.skip(1) =~= s@.skip(i as int + 1));
                    assert(norm_slashes(t) == seq![t[0]] + norm_slashes(s@.skip(i as int + 1)));
                }
                push_char(&mut p, c);
                proof {
                    assert(p@ + norm_slashes(s@.skip(i as int + 1)) =~= prev + norm_slashes(t));
                }
                i += 1;
            }
        }
        proof {
            assert(s@.skip(n as int) =~= Seq::<char>::empty());
            assert(p@ =~= norm_slashes(s@));
        }
        Path { p }
    }

    /// Joins one fragment: an absolute or URI fragment replaces the whole
    /// path, any other fragment is appended behind exactly one slash.
    pub fn push(&mut self, p2: &str)
        ensures
            final(self)@ == joined(old(self)@, p2@),
    {
        if is_replacing(p2) {
            self.p = String::from_str(p2);
        } else {
            let ghost p1 = self.p@;
            if !ends_with_slash(&self.p) {
                push_char(&mut self.p, '/');
                self.p.append(p2);
                proof {
                    assert(self.p@ =~= p1 + seq!['/'] + p2@);
                }
            } else {
                self.p.append(p2);
            }
        }
    }

    /// The accumulated canonical path.
    pub fn to_string(&self) -> (r: String)
        ensures
            r@ == self@,
    {
        self.p.clone()
    }
}

/// No backslash survives normalization.
pub proof fn lemma_norm_slashes_no_backslash(s: Seq<char>)
    ensures
        forall|i: int| 0 <= i < norm_slashes(s).len() ==> #[trigger] norm_slashes(s)[i] != '\\',
    decreases s.len(),
{
    if s.len() == 0 {
    } else if s.len() >= 2 && s[0] == '\\' && s[1] == '\\' {
        lemma_norm_slashes_no_backslash(s.skip(2));
        assert forall|i: int| 0 <= i < norm_slashes(s).len() implies #[trigger] norm_slashes(s)[i]
            != '\\' by {
            if i > 0 {
                assert(norm_slashes(s)[i] == norm_slashes(s.skip(2))[i - 1]);
            }
        }
    } else if s[0] == '\\' {
        lemma_norm_slashes_no_backslash(s.skip(1));
        assert forall|i: int| 0 <= i < norm_slashes(s).len() implies #[trigger] norm_slashes(s)[i]
            != '\\' by {
            if i > 0 {
                assert(norm_slashes(s)[i] == norm_slashes(s.skip(1))[i - 1]);
            }
        }
    } else {
        lemma_norm_slashes_no_backslash(s.skip(1));
        assert forall|i: int| 0 <= i < norm_slashes(s).len() implies #[trigger] norm_slashes(s)[i]
            != '\\' by {
            if i > 0 {
                assert(norm_slashes(s)[i] == norm_slashes(s.skip(1))[i - 1]);
            }
        }
    }
}

/// Normalization does not change a string that holds no backslash.
pub proof fn lemma_norm_slashes_identity(s: Seq<char>)
    requires
        forall|i: int| 0 <= i < s.len() ==> #[trigger] s[i] != '\\',
    ensures
        norm_slashes(s) == s,
    decreases s.len(),
{
    if s.len() == 0 {
        assert(norm_slashes(s) =~= s);
    } else {
        lemma_norm_slashes_identity(s.skip(1));
        assert(norm_slashes(s) =~= s);
    }
}

/// Path normalization is idempotent: normalizing an already-normalized
/// string yields the same string.
pub proof fn lemma_norm_slashes_idempotent(s: Seq<char>)
    ensures
        norm_slashes(norm_slashes(s)) == norm_slashes(s),
{
    lemma_norm_slashes_no_backslash(s);
    lemma_norm_slashes_identity(norm_slashes(s));
}

} // verus!
