//! JSON pointers: the raw-text normalization, the split into reference
//! tokens, RFC 6901 escape decoding, and array-index parsing.

use vstd::prelude::*;
use vstd::string::StrSliceExecFns;
use vstd::string::StringExecFns;

verus! {

/// The spellings of an empty pointer: the empty string, and the two
/// two-character quotings of it that some shells hand over instead.
pub open spec fn is_empty_spelling(s: Seq<char>) -> bool {
    ||| s == Seq::<char>::empty()
    ||| s == seq!['\'', '\'']
    ||| s == seq!['"', '"']
}

/// One left-to-right pass replacing each `\/` with `/`.
pub open spec fn unescape_slashes(s: Seq<char>) -> Seq<char>
    decreases s.len(),
{
    if s.len() >= 2 && s[0] == '\\' && s[1] == '/' {
        seq!['/'] + unescape_slashes(s.skip(2))
    } else if s.len() == 0 {
        s
    } else {
        seq![s[0]] + unescape_slashes(s.skip(1))
    }
}

/// The text a raw pointer argument stands for: an empty spelling denotes
/// the empty pointer, and a quoted `\/` stands for a literal `/`.
pub open spec fn normalize_ptr(s: Seq<char>) -> Seq<char> {
    if is_empty_spelling(s) {
        Seq::empty()
    } else {
        unescape_slashes(s)
    }
}

/// Split on `/`, keeping empty segments, as the reference-token grammar
/// asks: the result always has at least one segment.
pub open spec fn split_slash(s: Seq<char>) -> Seq<Seq<char>>
    decreases s.len(),
{
    if s.len() == 0 {
        seq![Seq::<char>::empty()]
    } else if s[0] == '/' {
        seq![Seq::<char>::empty()] + split_slash(s.skip(1))
    } else {
        let rest = split_slash(s.skip(1));
        seq![seq![s[0]] + rest[0]] + rest.skip(1)
    }
}

pub proof fn lemma_split_slash_nonempty(s: Seq<char>)
    ensures
        split_slash(s).len() >= 1,
    decreases s.len(),
{
    if s.len() > 0 {
        lemma_split_slash_nonempty(s.skip(1));
    }
}

/// RFC 6901 escape decoding of one reference token: `~1` becomes `/` and
/// `~0` becomes `~`, in one left-to-right pass.
pub open spec fn decode_token(t: Seq<char>) -> Seq<char>
    decreases t.len(),
{
    if t.len() >= 2 && t[0] == '~' && t[1] == '1' {
        seq!['/'] + decode_token(t.skip(2))
    } else if t.len() >= 2 && t[0] == '~' && t[1] == '0' {
        seq!['~'] + decode_token(t.skip(2))
    } else if t.len() == 0 {
        t
    } else {
        seq![t[0]] + decode_token(t.skip(1))
    }
}

/// RFC 6901 escape encoding of a key: `~` becomes `~0` and `/` becomes `~1`.
pub open spec fn encode_token(k: Seq<char>) -> Seq<char>
    decreases k.len(),
{
    if k.len() == 0 {
        k
    } else if k[0] == '~' {
        seq!['~', '0'] + encode_token(k.skip(1))
    } else if k[0] == '/' {
        seq!['~', '1'] + encode_token(k.skip(1))
    } else {
        seq![k[0]] + encode_token(k.skip(1))
    }
}

/// Escaping round trip: decoding an encoded key gives the key back, so a
/// key holding `/` or `~` can always be addressed.
pub proof fn lemma_decode_encode(k: Seq<char>)
    ensures
        decode_token(encode_token(k)) == k,
    decreases k.len(),
{
    if k.len() > 0 {
        lemma_decode_encode(k.skip(1));
        if k[0] == '~' {
            assert((seq!['~', '0'] + encode_token(k.skip(1))).skip(2) =~= encode_token(k.skip(1)));
            assert(seq!['~'] + k.skip(1) =~= k);
        } else if k[0] == '/' {
            assert((seq!['~', '1'] + encode_token(k.skip(1))).skip(2) =~= encode_token(k.skip(1)));
            assert(seq!['/'] + k.skip(1) =~= k);
        } else {
            assert((seq![k[0]] + encode_token(k.skip(1))).skip(1) =~= encode_token(k.skip(1)));
            assert(seq![k[0]] + k.skip(1) =~= k);
        }
    }
}

/// An encoded token holds no `/`: both escapes replace it.
pub proof fn lemma_encode_no_slash(k: Seq<char>)
    ensures
        forall|i: int| 0 <= i < encode_token(k).len() ==> (#[trigger] encode_token(k)[i]) != '/',
    decreases k.len(),
{
    if k.len() > 0 {
        lemma_encode_no_slash(k.skip(1));
        let e = encode_token(k);
        let rest = encode_token(k.skip(1));
        assert forall|i: int| 0 <= i < e.len() implies (#[trigger] e[i]) != '/' by {
            if k[0] == '~' || k[0] == '/' {
                if i >= 2 {
                    assert(e[i] == rest[i - 2]);
                }
            } else {
                if i >= 1 {
                    assert(e[i] == rest[i - 1]);
                }
            }
        }
    }
}

/// A text without `/` splits into the one segment it is.
pub proof fn lemma_split_no_slash(s: Seq<char>)
    requires
        forall|i: int| 0 <= i < s.len() ==> (#[trigger] s[i]) != '/',
    ensures
        split_slash(s) == seq![s],
    decreases s.len(),
{
    if s.len() == 0 {
        assert(split_slash(s) =~~= seq![s]);
    } else {
        assert(forall|i: int|
            0 <= i < s.skip(1).len() ==> (#[trigger] s.skip(1)[i]) != '/');
        lemma_split_no_slash(s.skip(1));
        assert(seq![s[0]] + s.skip(1) =~= s);
        assert(split_slash(s) =~~= seq![s]);
    }
}

/// The reference tokens of a pointer text: none for a text that is
/// non-empty yet does not start with `/`; otherwise the decoded segments
/// after the leading `/`.
pub open spec fn tokens_of(p: Seq<char>) -> Option<Seq<Seq<char>>> {
    if p.len() == 0 {
        Some(Seq::empty())
    } else if p[0] != '/' {
        None
    } else {
        Some(split_slash(p.skip(1)).map_values(|t: Seq<char>| decode_token(t)))
    }
}

/// A pointer argument as given on the command line, with the empty
/// spellings and the `\/` quoting already resolved.
#[derive(PartialEq, Debug)]
pub struct Pointer {
    inner: String,
}

impl View for Pointer {
    type V = Seq<char>;

    closed spec fn view(&self) -> Seq<char> {
        self.inner@
    }
}

impl Pointer {
    /// Build a pointer from raw text; no raw text is rejected.
    pub fn new_unwrap(s: &str) -> (p: Pointer)
        ensures
            p@ == normalize_ptr(s@),
    {
        let n = s.unicode_len();
        if n == 0 {
            return Pointer { inner: String::new() };
        }
        if n == 2 {
            let c0 = s.get_char(0);
            let c1 = s.get_char(1);
            if (c0 == '\'' && c1 == '\'') || (c0 == '"' && c1 == '"') {
                proof {
                    if c0 == '\'' {
                        assert(s@ =~= seq!['\'', '\'']);
                    } else {
                        assert(s@ =~= seq!['"', '"']);
                    }
                }
                return Pointer { inner: String::new() };
            }
        }
        proof {
            assert(s@ != Seq::<char>::empty());
            if s@ == seq!['\'', '\''] {
                assert(s@[0] == '\'' && s@[1] == '\'');
                assert(false);
            }
            if s@ == seq!['"', '"'] {
                assert(s@[0] == '"' && s@[1] == '"');
                assert(false);
            }
        }
        let mut out = String::new();
        let mut i: usize = 0;
        proof {
            assert(s@.skip(0) =~= s@);
            assert(out@ + s@ =~= s@);
            assert(out@ + unescape_slashes(s@) =~= unescape_slashes(s@));
        }
        while i < n
            invariant
                n == s@.len(),
                i <= n,
                unescape_slashes(s@) == out@ + unescape_slashes(s@.skip(i as int)),
            decreases n - i,
        {
            if s.get_char(i) == '\\' && i + 1 < n && s.get_char(i + 1) == '/' {
                proof {
                    reveal_strlit("/");
                    assert("/"@ =~= seq!['/']);
                    assert(s@.skip(i as int)[0] == '\\' && s@.skip(i as int)[1] == '/');
                    assert(s@.skip(i as int).skip(2) =~= s@.skip(i + 2));
                    assert(out@ + (seq!['/'] + unescape_slashes(s@.skip(i + 2))) =~= (out@
                        + seq!['/']) + unescape_slashes(s@.skip(i + 2)));
                }
                out.append("/");
                i = i + 2;
            } else {
                let ghost rem = s@.skip(i as int);
                proof {
                    assert(!(rem.len() >= 2 && rem[0] == '\\' && rem[1] == '/'));
                    assert(rem.len() > 0);
                    assert(s@.subrange(i as int, i + 1) =~= seq![rem[0]]);
                    assert(rem.skip(1) =~= s@.skip(i + 1));
                    assert(out@ + (seq![rem[0]] + unescape_slashes(s@.skip(i + 1))) =~= (out@
                        + seq![rem[0]]) + unescape_slashes(s@.skip(i + 1)));
                }
                out.append(s.substring_char(i, i + 1));
                i = i + 1;
            }
        }
        proof {
            assert(s@.skip(n as int) =~= Seq::<char>::empty());
            assert(out@ + Seq::<char>::empty() =~= out@);
        }
        Pointer { inner: out }
    }

    /// The normalized pointer text.
    pub fn as_str(&self) -> (r: &str)
        ensures
            r@ == self@,
    {
        self.inner.as_str()
    }
}

/// A decimal digit, by code point.
pub open spec fn is_digit(c: char) -> bool {
    48 <= c as int && c as int <= 57
}

pub open spec fn digit_val(c: char) -> int {
    c as int - 48
}

pub open spec fn all_digits(t: Seq<char>) -> bool {
    forall|i: int| 0 <= i < t.len() ==> is_digit(#[trigger] t[i])
}

/// A valid array-index token: `0`, or a digit string without a leading
/// zero. A leading `+`, a sign, or any non-digit is refused.
pub open spec fn is_index_spelling(t: Seq<char>) -> bool {
    t.len() > 0 && all_digits(t) && (t[0] != '0' || t.len() == 1)
}

/// The numeric value of a digit string.
pub open spec fn digits_val(t: Seq<char>) -> int
    decreases t.len(),
{
    if t.len() == 0 {
        0
    } else {
        digits_val(t.drop_last()) * 10 + digit_val(t.last())
    }
}

pub proof fn lemma_digits_val_grows(t: Seq<char>, i: int)
    requires
        0 <= i <= t.len(),
        all_digits(t),
    ensures
        digits_val(t.take(i)) >= 0,
        digits_val(t) >= digits_val(t.take(i)),
    decreases t.len(),
{
    if t.len() == 0 {
        assert(t.take(i) =~= t);
    } else {
        let u = t.drop_last();
        assert(all_digits(u));
        if i == t.len() {
            lemma_digits_val_grows(u, u.len() as int);
            assert(u.take(u.len() as int) =~= u);
            assert(t.take(i) =~= t);
        } else {
            lemma_digits_val_grows(u, i);
            assert(t.take(i) =~= u.take(i));
            lemma_digits_val_grows(u, u.len() as int);
            assert(u.take(u.len() as int) =~= u);
        }
    }
}

/// Parse a reference token as an array index. Returns the value exactly
/// when the token is a valid index spelling whose value fits the machine;
/// an invalid spelling or an oversized value gives nothing.
pub fn parse_index(s: &str) -> (r: Option<usize>)
    ensures
        match r {
            Some(n) => is_index_spelling(s@) && digits_val(s@) == n as int,
            None => !is_index_spelling(s@) || digits_val(s@) > usize::MAX as int,
        },
{
    let n = s.unicode_len();
    if n == 0 {
        return None;
    }
    if s.get_char(0) == '0' && n != 1 {
        return None;
    }
    let mut i: usize = 0;
    let mut acc: usize = 0;
    proof {
        assert(s@.take(0) =~= Seq::<char>::empty());
    }
    while i < n
        invariant
            n == s@.len(),
            n > 0,
            i <= n,
            all_digits(s@.take(i as int)),
            acc as int == digits_val(s@.take(i as int)),
        decreases n - i,
    {
        let c = s.get_char(i);
        let cu = c as u32;
        if cu < 48 || cu > 57 {
            assert(!is_digit(s@[i as int]));
            return None;
        }
        let d = (cu - 48) as usize;
        proof {
            assert(s@.take(i + 1).drop_last() =~= s@.take(i as int));
            assert(s@.take(i + 1).last() == s@[i as int]);
            assert(all_digits(s@.take(i + 1)));
        }
        if acc > (usize::MAX - d) / 10 {
            proof {
                assert(acc as int * 10 + d as int > usize::MAX as int);
                if all_digits(s@) {
                    lemma_digits_val_grows(s@, i + 1);
                }
            }
            return None;
        }
        acc = acc * 10 + d;
        i = i + 1;
    }
    proof {
        assert(s@.take(n as int) =~= s@);
    }
    Some(acc)
}

fn split_segments(s: &str) -> (segs: Vec<String>)
    ensures
        segs.deep_view() == split_slash(s@),
{
    let n = s.unicode_len();
    let mut segs: Vec<String> = Vec::new();
    let mut cur = String::new();
    let mut i: usize = 0;
    proof {
        lemma_split_slash_nonempty(s@);
        assert(s@.skip(0) =~= s@);
        assert(segs.deep_view() + seq![cur@ + split_slash(s@)[0]] + split_slash(s@).skip(1)
            =~= split_slash(s@));
    }
    while i < n
        invariant
            n == s@.len(),
            i <= n,
            split_slash(s@) == segs.deep_view() + seq![cur@ + split_slash(s@.skip(i as int))[0]]
                + split_slash(s@.skip(i as int)).skip(1),
        decreases n - i,
    {
        let ghost rem = s@.skip(i as int);
        proof {
            assert(rem.len() > 0);
            assert(rem.skip(1) =~= s@.skip(i + 1));
            lemma_split_slash_nonempty(s@.skip(i + 1));
        }
        let c = s.get_char(i);
        if c == '/' {
            proof {
                assert(split_slash(rem) =~= seq![Seq::<char>::empty()] + split_slash(
                    s@.skip(i + 1),
                ));
                assert(split_slash(rem)[0] =~= Seq::<char>::empty());
                assert(split_slash(rem).skip(1) =~= split_slash(s@.skip(i + 1)));
                assert(cur@ + Seq::<char>::empty() =~= cur@);
            }
            let ghost old_segs = segs.deep_view();
            let ghost old_cur = cur@;
            segs.push(cur);
            cur = String::new();
            proof {
                assert(segs.deep_view() =~= old_segs.push(old_cur));
                assert(old_segs.push(old_cur) + seq![cur@ + split_slash(s@.skip(i + 1))[0]]
                    + split_slash(s@.skip(i + 1)).skip(1) =~= old_segs + seq![old_cur + split_slash(
                    rem,
                )[0]] + split_slash(rem).skip(1));
            }
            i = i + 1;
        } else {
            proof {
                assert(rem[0] != '/');
                let rest = split_slash(s@.skip(i + 1));
                assert(split_slash(rem) =~= seq![seq![rem[0]] + rest[0]] + rest.skip(1));
                assert(s@.subrange(i as int, i + 1) =~= seq![rem[0]]);
                assert((cur@ + seq![rem[0]]) + rest[0] =~= cur@ + (seq![rem[0]] + rest[0]));
            }
            cur.append(s.substring_char(i, i + 1));
            i = i + 1;
        }
    }
    proof {
        assert(s@.skip(n as int) =~= Seq::<char>::empty());
        assert(cur@ + split_slash(Seq::<char>::empty())[0] =~= cur@);
    }
    let ghost old_segs = segs.deep_view();
    let ghost old_cur = cur@;
    segs.push(cur);
    proof {
        assert(segs.deep_view() =~= old_segs.push(old_cur));
        assert(old_segs + seq![old_cur] + split_slash(Seq::<char>::empty()).skip(1) =~= old_segs.push(
            old_cur,
        ));
    }
    segs
}

fn decode_segment(s: &String) -> (out: String)
    ensures
        out@ == decode_token(s@),
{
    let n = s.as_str().unicode_len();
    let mut out = String::new();
    let mut i: usize = 0;
    proof {
        assert(s@.skip(0) =~= s@);
        assert(out@ + decode_token(s@) =~= decode_token(s@));
    }
    while i < n
        invariant
            n == s@.len(),
            i <= n,
            decode_token(s@) == out@ + decode_token(s@.skip(i as int)),
        decreases n - i,
    {
        let ghost rem = s@.skip(i as int);
        proof {
            assert(rem.len() > 0);
            assert(rem.skip(1) =~= s@.skip(i + 1));
            if rem.len() >= 2 {
                assert(rem.skip(2) =~= s@.skip(i + 2));
            }
        }
        let c = s.as_str().get_char(i);
        if c == '~' && i + 1 < n && s.as_str().get_char(i + 1) == '1' {
            proof {
                reveal_strlit("/");
                assert("/"@ =~= seq!['/']);
                assert(out@ + (seq!['/'] + decode_token(s@.skip(i + 2))) =~= (out@ + seq!['/'])
                    + decode_token(s@.skip(i + 2)));
            }
            out.append("/");
            i = i + 2;
        } else if c == '~' && i + 1 < n && s.as_str().get_char(i + 1) == '0' {
            proof {
                reveal_strlit("~");
                assert("~"@ =~= seq!['~']);
                assert(out@ + (seq!['~'] + decode_token(s@.skip(i + 2))) =~= (out@ + seq!['~'])
                    + decode_token(s@.skip(i + 2)));
            }
            out.append("~");
            i = i + 2;
        } else {
            proof {
                assert(s@.subrange(i as int, i + 1) =~= seq![rem[0]]);
                assert(out@ + (seq![rem[0]] + decode_token(s@.skip(i + 1))) =~= (out@ + seq![
                    rem[0],
                ]) + decode_token(s@.skip(i + 1)));
            }
            out.append(s.as_str().substring_char(i, i + 1));
            i = i + 1;
        }
    }
    proof {
        assert(s@.skip(n as int) =~= Seq::<char>::empty());
        assert(out@ + Seq::<char>::empty() =~= out@);
    }
    out
}

/// Turn a pointer text into its reference tokens: nothing for a non-empty
/// text that does not start with `/`, otherwise the decoded segments.
pub fn parse_pointer(p: &str) -> (r: Option<Vec<String>>)
    ensures
        match r {
            Some(v) => tokens_of(p@) == Some(v.deep_view()),
            None => tokens_of(p@) is None,
        },
{
    let n = p.unicode_len();
    if n == 0 {
        let v: Vec<String> = Vec::new();
        proof {
            assert(v.deep_view() =~= Seq::<Seq<char>>::empty());
        }
        return Some(v);
    }
    if p.get_char(0) != '/' {
        return None;
    }
    let segs = split_segments(p);
    let ghost tail = split_slash(p@.skip(1));
    proof {
        assert(split_slash(p@) =~= seq![Seq::<char>::empty()] + tail);
        assert(split_slash(p@).skip(1) =~= tail);
        assert(segs.deep_view().len() == 1 + tail.len());
    }
    let mut toks: Vec<String> = Vec::new();
    let mut j: usize = 1;
    while j < segs.len()
        invariant
            segs.deep_view() == split_slash(p@),
            split_slash(p@) == seq![Seq::<char>::empty()] + tail,
            segs.len() == 1 + tail.len(),
            1 <= j <= segs.len(),
            toks.deep_view().len() == j - 1,
            forall|k: int|
                0 <= k < j - 1 ==> toks.deep_view()[k] == decode_token(#[trigger] tail[k]),
        decreases segs.len() - j,
    {
        proof {
            assert(segs@[j as int]@ == segs.deep_view()[j as int]);
            assert(segs.deep_view()[j as int] == tail[j - 1]);
        }
        let t = decode_segment(&segs[j]);
        let ghost old_toks = toks.deep_view();
        toks.push(t);
        proof {
            assert(toks.deep_view() =~= old_toks.push(t@));
        }
        j = j + 1;
    }
    proof {
        assert(toks.deep_view() =~= tail.map_values(|t: Seq<char>| decode_token(t)));
    }
    Some(toks)
}

} // verus!
