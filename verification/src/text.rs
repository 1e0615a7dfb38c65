//! Character-sequence helpers: lexicographic ordering of identifiers and
//! normalization of file paths to canonical module identifiers.

use vstd::prelude::*;

verus! {

/// Strict lexicographic order on character sequences, comparing scalar
/// values position by position; a proper prefix sorts first.
pub open spec fn lex_lt(a: Seq<char>, b: Seq<char>) -> bool
    decreases a.len(),
{
    if b.len() == 0 {
        false
    } else if a.len() == 0 {
        true
    } else if a[0] as u32 != b[0] as u32 {
        (a[0] as u32) < (b[0] as u32)
    } else {
        lex_lt(a.skip(1), b.skip(1))
    }
}

pub proof fn lemma_lex_irrefl(a: Seq<char>)
    ensures
        !lex_lt(a, a),
    decreases a.len(),
{
    if a.len() > 0 {
        lemma_lex_irrefl(a.skip(1));
    }
}

pub proof fn lemma_lex_asym(a: Seq<char>, b: Seq<char>)
    requires
        lex_lt(a, b),
    ensures
        !lex_lt(b, a),
    decreases a.len(),
{
    if a.len() > 0 && b.len() > 0 && a[0] as u32 == b[0] as u32 {
        lemma_lex_asym(a.skip(1), b.skip(1));
    }
}

pub proof fn lemma_lex_total(a: Seq<char>, b: Seq<char>)
    ensures
        lex_lt(a, b) || lex_lt(b, a) || a == b,
    decreases a.len(),
{
    if a.len() == 0 && b.len() == 0 {
        assert(a =~= b);
    } else if a.len() > 0 && b.len() > 0 && a[0] as u32 == b[0] as u32 {
        lemma_lex_total(a.skip(1), b.skip(1));
        if !lex_lt(a, b) && !lex_lt(b, a) {
            assert(a.skip(1) == b.skip(1));
            vstd::utf8::char_u32_cast(a[0], a[0] as u32);
            vstd::utf8::char_u32_cast(b[0], b[0] as u32);
            assert(a[0] == b[0]);
            assert(a =~= b) by {
                assert(forall|i: int| 1 <= i < a.len() ==> a[i] == a.skip(1)[i - 1]
                    && b[i] == b.skip(1)[i - 1]);
            }
        }
    }
}

pub proof fn lemma_lex_trans(a: Seq<char>, b: Seq<char>, c: Seq<char>)
    requires
        lex_lt(a, b),
        lex_lt(b, c),
    ensures
        lex_lt(a, c),
    decreases a.len(),
{
    if a.len() > 0 && b.len() > 0 && c.len() > 0 && a[0] as u32 == b[0] as u32
        && b[0] as u32 == c[0] as u32 {
        lemma_lex_trans(a.skip(1), b.skip(1), c.skip(1));
    }
}

/// Compares two strings in the order of `lex_lt`.
pub fn str_lt(a: &str, b: &str) -> (r: bool)
    ensures
        r == lex_lt(a@, b@),
{
    let la: usize = a.unicode_len();
    let lb: usize = b.unicode_len();
    let mut i: usize = 0;
    proof {
        assert(a@.skip(0) =~= a@);
        assert(b@.skip(0) =~= b@);
    }
    while i < la && i < lb
        invariant
            i <= la <= a@.len(),
            i <= lb <= b@.len(),
            la == a@.len(),
            lb == b@.len(),
            lex_lt(a@, b@) == lex_lt(a@.skip(i as int), b@.skip(i as int)),
        decreases la - i,
    {
        let ca: u32 = a.get_char(i) as u32;
        let cb: u32 = b.get_char(i) as u32;
        if ca < cb {
            return true;
        }
        if ca > cb {
            return false;
        }
        proof {
            assert(a@.skip(i as int).skip(1) =~= a@.skip(i + 1));
            assert(b@.skip(i as int).skip(1) =~= b@.skip(i + 1));
        }
        i = i + 1;
    }
    proof {
        if i >= lb {
            assert(b@.skip(i as int).len() == 0);
        } else {
            assert(a@.skip(i as int).len() == 0);
            assert(b@.skip(i as int).len() > 0);
        }
    }
    i < lb
}

/// Compares two strings for equality of their character sequences.
pub fn str_eq(a: &str, b: &str) -> (r: bool)
    ensures
        r == (a@ == b@),
{
    let la: usize = a.unicode_len();
    let lb: usize = b.unicode_len();
    if la != lb {
        return false;
    }
    let mut i: usize = 0;
    while i < la
        invariant
            i <= la,
            la == a@.len(),
            la == b@.len(),
            forall|k: int| 0 <= k < i ==> a@[k] == b@[k],
        decreases la - i,
    {
        let ca: char = a.get_char(i);
        let cb: char = b.get_char(i);
        if ca != cb {
            return false;
        }
        i = i + 1;
    }
    proof {
        assert(a@ =~= b@);
    }
    true
}

/// Relies on std's `String::push`: appends the given character to the end
/// of the string.
#[verifier::external_body]
pub fn push_char(s: &mut String, c: char)
    ensures
        final(s)@ == old(s)@.push(c),
{
    s.push(c)
}

/// A path character with backslash separators mapped to forward slashes.
pub open spec fn to_slash(c: char) -> char {
    if c == '\\' {
        '/'
    } else {
        c
    }
}

/// The path with all separators normalized to forward slashes.
pub open spec fn slashed(s: Seq<char>) -> Seq<char> {
    s.map_values(|c: char| to_slash(c))
}

/// The path with every leading `/` and `./` prefix removed.
pub open spec fn strip_lead(s: Seq<char>) -> Seq<char>
    decreases s.len(),
{
    if s.len() >= 1 && s[0] == '/' {
        strip_lead(s.skip(1))
    } else if s.len() >= 2 && s[0] == '.' && s[1] == '/' {
        strip_lead(s.skip(2))
    } else {
        s
    }
}

/// Index of the dot that starts the extension of the final path segment,
/// or -1 when the final segment has none. A dot that begins a segment
/// does not count as an extension marker.
pub open spec fn ext_dot(s: Seq<char>) -> int
    decreases s.len(),
{
    if s.len() == 0 {
        -1
    } else if s.last() == '/' {
        -1
    } else if s.last() == '.' {
        if s.len() >= 2 && s[s.len() - 2] != '/' {
            s.len() - 1
        } else {
            -1
        }
    } else {
        ext_dot(s.drop_last())
    }
}

/// The path with the final segment's extension removed.
pub open spec fn drop_ext(s: Seq<char>) -> Seq<char> {
    if ext_dot(s) >= 0 {
        s.take(ext_dot(s))
    } else {
        s
    }
}

/// Canonical module identifier of a file path: separators normalized,
/// leading `/` and `./` prefixes stripped, extension dropped.
pub open spec fn normalize_spec(p: Seq<char>) -> Seq<char> {
    drop_ext(strip_lead(slashed(p)))
}

/// Derives the canonical module identifier of a file path.
pub fn normalize_module_id(path: &str) -> (r: String)
    ensures
        r@ == normalize_spec(path@),
{
    let n: usize = path.unicode_len();
    let mut cs: Vec<char> = Vec::new();
    let mut i: usize = 0;
    while i < n
        invariant
            i <= n,
            n == path@.len(),
            cs@ =~= slashed(path@).take(i as int),
        decreases n - i,
    {
        let c: char = path.get_char(i);
        if c == '\\' {
            cs.push('/');
        } else {
            cs.push(c);
        }
        proof {
            assert(cs@ =~= slashed(path@).take(i + 1));
        }
        i = i + 1;
    }
    proof {
        assert(cs@ =~= slashed(path@));
    }
    // strip leading '/' and './' prefixes
    let len: usize = cs.len();
    let mut st: usize = 0;
    while st < len && (cs[st] == '/' || (st + 1 < len && cs[st] == '.' && cs[st + 1] == '/'))
        invariant
            st <= len,
            len == cs@.len(),
            strip_lead(cs@) == strip_lead(cs@.skip(st as int)),
        decreases len - st,
    {
        if cs[st] == '/' {
            proof {
                assert(cs@.skip(st as int).skip(1) =~= cs@.skip(st + 1));
            }
            st = st + 1;
        } else {
            proof {
                assert(cs@.skip(st as int).skip(2) =~= cs@.skip(st + 2));
            }
            st = st + 2;
        }
    }
    let ghost region: Seq<char> = cs@.skip(st as int);
    proof {
        assert(strip_lead(cs@.skip(st as int)) == cs@.skip(st as int));
    }
    // find the extension dot in the stripped region, scanning from the end
    let rlen: usize = len - st;
    proof {
        assert(region.take(rlen as int) =~= region);
    }
    let mut m: usize = rlen;
    let mut cut: usize = rlen;
    let mut found: bool = false;
    while m > 0 && !found
        invariant
            m <= rlen,
            rlen == region.len(),
            region == cs@.skip(st as int),
            st + rlen == len,
            len == cs@.len(),
            !found ==> cut == rlen && ext_dot(region) == ext_dot(region.take(m as int)),
            found ==> (ext_dot(region) == -1 && cut == rlen) || (ext_dot(region) == cut
                && 0 <= cut < rlen),
        decreases m,
    {
        let c: char = cs[st + m - 1];
        proof {
            assert(region.take(m as int).len() == m);
            assert(region.take(m as int).last() == region[m - 1]);
            assert(region[m - 1] == cs@[st + m - 1]);
            if m >= 2 {
                assert(region.take(m as int)[m - 2] == region[m - 2]);
                assert(region[m - 2] == cs@[st + m - 2]);
            }
        }
        if c == '/' {
            found = true;
            proof {
                assert(ext_dot(region.take(m as int)) == -1);
            }
            m = 0;
        } else if c == '.' {
            found = true;
            if m >= 2 && cs[st + m - 2] != '/' {
                cut = m - 1;
                proof {
                    assert(ext_dot(region.take(m as int)) == m - 1);
                }
            } else {
                proof {
                    assert(ext_dot(region.take(m as int)) == -1);
                }
            }
            m = 0;
        } else {
            proof {
                assert(region.take(m as int).drop_last() =~= region.take(m - 1));
            }
            m = m - 1;
        }
    }
    proof {
        if !found {
            assert(region.take(0) =~= Seq::<char>::empty());
            assert(ext_dot(region) == -1);
        }
    }
    let ghost kept: Seq<char> = normalize_spec(path@);
    proof {
        if cut < rlen {
            assert(kept =~= region.take(cut as int));
        } else {
            assert(kept =~= region);
            assert(kept =~= region.take(cut as int));
        }
    }
    // build the identifier from the kept region
    let keep: usize = cut;
    proof {
        assert(kept.len() == keep);
        assert(forall|k: int| 0 <= k < keep ==> kept[k] == cs@[st + k]);
    }
    let mut out: String = String::new();
    let mut j: usize = 0;
    while j < keep
        invariant
            j <= keep,
            keep <= rlen,
            st + rlen == len,
            len == cs@.len(),
            kept.len() == keep,
            forall|k: int| 0 <= k < keep ==> kept[k] == cs@[st + k],
            out@ =~= kept.take(j as int),
        decreases keep - j,
    {
        push_char(&mut out, cs[st + j]);
        proof {
            assert(out@ =~= kept.take(j + 1));
        }
        j = j + 1;
    }
    proof {
        assert(out@ =~= kept);
    }
    out
}

} // verus!
