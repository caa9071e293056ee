use vstd::prelude::*;

verus! {

/// Whether `c` is a Unicode white-space character, the set that
/// `char::is_whitespace` recognises.
pub open spec fn is_space_char(c: char) -> bool {
    ||| c == '\u{0009}'
    ||| c == '\u{000A}'
    ||| c == '\u{000B}'
    ||| c == '\u{000C}'
    ||| c == '\u{000D}'
    ||| c == ' '
    ||| c == '\u{0085}'
    ||| c == '\u{00A0}'
    ||| c == '\u{1680}'
    ||| ('\u{2000}' <= c && c <= '\u{200A}')
    ||| c == '\u{2028}'
    ||| c == '\u{2029}'
    ||| c == '\u{202F}'
    ||| c == '\u{205F}'
    ||| c == '\u{3000}'
}

/// Executable test for `is_space_char`.
pub fn is_space(c: char) -> (r: bool)
    ensures
        r == is_space_char(c),
{
    match c {
        '\u{0009}' | '\u{000A}' | '\u{000B}' | '\u{000C}' | '\u{000D}' | ' ' | '\u{0085}'
        | '\u{00A0}' | '\u{1680}' | '\u{2028}' | '\u{2029}' | '\u{202F}' | '\u{205F}'
        | '\u{3000}' => true,
        c => '\u{2000}' <= c && c <= '\u{200A}',
    }
}

/// `s` without its leading white space.
pub open spec fn trim_front_spec(s: Seq<char>) -> Seq<char>
    decreases s.len(),
{
    if s.len() > 0 && is_space_char(s[0]) {
        trim_front_spec(s.drop_first())
    } else {
        s
    }
}

/// `s` without its trailing white space.
pub open spec fn trim_back_spec(s: Seq<char>) -> Seq<char>
    decreases s.len(),
{
    if s.len() > 0 && is_space_char(s[s.len() - 1]) {
        trim_back_spec(s.drop_last())
    } else {
        s
    }
}

/// `s` without leading and trailing white space: what `str::trim` returns.
pub open spec fn trim_spec(s: Seq<char>) -> Seq<char> {
    trim_back_spec(trim_front_spec(s))
}

/// A sequence of characters that carries no white space at either edge and
/// is not empty: the shape of every stored task description.
pub open spec fn trimmed_nonempty(s: Seq<char>) -> bool {
    &&& s.len() > 0
    &&& !is_space_char(s[0])
    &&& !is_space_char(s[s.len() - 1])
}

/// Dropping `k` leading spaces computes `trim_front_spec`.
proof fn lemma_trim_front_skip(s: Seq<char>, k: int)
    requires
        0 <= k <= s.len(),
        forall|i: int| 0 <= i < k ==> is_space_char(s[i]),
        k == s.len() || !is_space_char(s[k]),
    ensures
        trim_front_spec(s) == s.skip(k),
    decreases k,
{
    if k == 0 {
        assert(s.skip(0) == s);
    } else {
        let t = s.drop_first();
        assert(forall|i: int| 0 <= i < k - 1 ==> is_space_char(#[trigger] t[i]));
        lemma_trim_front_skip(t, k - 1);
        assert(t.skip(k - 1) == s.skip(k));
    }
}

/// Dropping `k` trailing spaces computes `trim_back_spec`.
proof fn lemma_trim_back_take(s: Seq<char>, k: int)
    requires
        0 <= k <= s.len(),
        forall|i: int| k <= i < s.len() ==> is_space_char(s[i]),
        k == 0 || !is_space_char(s[k - 1]),
    ensures
        trim_back_spec(s) == s.take(k),
    decreases s.len() - k,
{
    if k == s.len() {
        assert(s.take(k) == s);
    } else {
        let t = s.drop_last();
        lemma_trim_back_take(t, k);
        assert(t.take(k) == s.take(k));
    }
}

/// What comes out of `trim_spec` is either empty or clean at both edges.
pub proof fn lemma_trim_shape(s: Seq<char>)
    ensures
        trim_spec(s).len() > 0 ==> trimmed_nonempty(trim_spec(s)),
    decreases s.len(),
{
    lemma_trim_front_clean(s);
    lemma_trim_back_clean(trim_front_spec(s));
}

/// `trim_front_spec` leaves no space at the front.
proof fn lemma_trim_front_clean(s: Seq<char>)
    ensures
        trim_front_spec(s).len() > 0 ==> !is_space_char(trim_front_spec(s)[0]),
    decreases s.len(),
{
    if s.len() > 0 && is_space_char(s[0]) {
        lemma_trim_front_clean(s.drop_first());
    }
}

/// `trim_back_spec` leaves no space at the back, and keeps a clean front.
proof fn lemma_trim_back_clean(s: Seq<char>)
    ensures
        trim_back_spec(s).len() > 0 ==> !is_space_char(
            trim_back_spec(s)[trim_back_spec(s).len() - 1],
        ),
        trim_back_spec(s).len() > 0 && !is_space_char(s[0]) ==> !is_space_char(
            trim_back_spec(s)[0],
        ),
    decreases s.len(),
{
    if s.len() > 0 && is_space_char(s[s.len() - 1]) {
        lemma_trim_back_clean(s.drop_last());
    }
}

/// An already clean sequence is its own trim.
pub proof fn lemma_trim_of_trimmed(s: Seq<char>)
    requires
        trimmed_nonempty(s),
    ensures
        trim_spec(s) == s,
{
    lemma_trim_front_skip(s, 0);
    lemma_trim_back_take(s, s.len() as int);
}

/// `s` with white space removed from both ends, exactly `str::trim`.
pub fn trim(s: &str) -> (r: String)
    ensures
        r@ == trim_spec(s@),
{
    let n = s.unicode_len();
    let mut a: usize = 0;
    while a < n && is_space(s.get_char(a))
        invariant
            0 <= a <= n,
            n == s@.len(),
            forall|i: int| 0 <= i < a ==> is_space_char(s@[i]),
        decreases n - a,
    {
        a = a + 1;
    }
    proof {
        lemma_trim_front_skip(s@, a as int);
    }
    if a == n {
        let r = String::new();
        proof {
            assert(s@.skip(a as int) == Seq::<char>::empty());
            assert(trim_back_spec(Seq::<char>::empty()) == Seq::<char>::empty());
        }
        return r;
    }
    let mut b: usize = n;
    while b > a && is_space(s.get_char(b - 1))
        invariant
            a <= b <= n,
            n == s@.len(),
            forall|i: int| b <= i < n ==> is_space_char(s@[i]),
        decreases b,
    {
        b = b - 1;
    }
    proof {
        let front = s@.skip(a as int);
        assert(forall|i: int| b - a <= i < front.len() ==> is_space_char(#[trigger] front[i]));
        assert(b > a);
        assert(!is_space_char(front[b - a - 1]));
        lemma_trim_back_take(front, b - a);
        assert(front.take(b - a) == s@.subrange(a as int, b as int));
    }
    let piece = s.substring_char(a, b);
    piece.to_owned()
}

} // verus!
