use vstd::prelude::*;
use vstd::string::{StrSliceExecFns, StringExecFns};

use crate::assoc::{assoc, lemma_assoc_absent, lemma_assoc_contains, lemma_assoc_last};
use crate::scheme::Colorscheme;

verus! {

/// A key of `m` of length `len` stands in `t` right after position `i` and
/// is followed by a closing brace.
pub open spec fn closes_key(m: Map<Seq<char>, Seq<char>>, t: Seq<char>, i: int, len: int) -> bool {
    &&& 0 <= len
    &&& i + 1 + len < t.len()
    &&& t[i + 1 + len] == '}'
    &&& m.contains_key(t.subrange(i + 1, i + 1 + len))
}

/// A placeholder `{key}` of a key of `m` starts at position `i`, and `len`
/// is the length of the longest such key.
pub open spec fn is_token_len(m: Map<Seq<char>, Seq<char>>, t: Seq<char>, i: int, len: int) -> bool {
    &&& t[i] == '{'
    &&& closes_key(m, t, i, len)
    &&& forall|l: int| l > len ==> !#[trigger] closes_key(m, t, i, l)
}

/// `t` from position `i` on, with each placeholder `{key}` whose key the
/// colorscheme `m` has replaced by its value. Where placeholders of several
/// keys start at one position, the longest key is taken. Inserted values
/// are not scanned again.
pub open spec fn render_from(m: Map<Seq<char>, Seq<char>>, t: Seq<char>, i: int) -> Seq<char>
    decreases t.len() - i,
{
    if i < 0 || i >= t.len() {
        Seq::empty()
    } else if exists|len: int| is_token_len(m, t, i, len) {
        let len = choose|len: int| is_token_len(m, t, i, len);
        m[t.subrange(i + 1, i + 1 + len)] + render_from(m, t, i + 2 + len)
    } else {
        seq![t[i]] + render_from(m, t, i + 1)
    }
}

/// `t` with every placeholder `{key}` whose key `m` has replaced by its
/// value; other text, unknown placeholders included, is kept as it is.
pub open spec fn render(m: Map<Seq<char>, Seq<char>>, t: Seq<char>) -> Seq<char> {
    render_from(m, t, 0)
}

/// Text from position `i` on in which no `{key}` names a key of `m` is kept.
proof fn lemma_render_no_known_token(m: Map<Seq<char>, Seq<char>>, t: Seq<char>, i: int)
    requires
        0 <= i <= t.len(),
        forall|a: int, e: int| 0 <= a < e < t.len() && t[a] == '{' && t[e] == '}' ==> !m.contains_key(#[trigger] t.subrange(a + 1, e)),
    ensures
        render_from(m, t, i) == t.subrange(i, t.len() as int),
    decreases t.len() - i,
{
    if i < t.len() {
        lemma_render_no_known_token(m, t, i + 1);
        assert forall|len: int| !is_token_len(m, t, i, len) by {
            if is_token_len(m, t, i, len) {
                assert(!m.contains_key(t.subrange(i + 1, i + 1 + len)));
            }
        }
        assert(t.subrange(i, t.len() as int) =~= seq![t[i]] + t.subrange(i + 1, t.len() as int));
    } else {
        assert(t.subrange(i, t.len() as int) =~= Seq::<char>::empty());
    }
}

/// Rendering leaves text unchanged when no placeholder `{key}` in it names a
/// color of the colorscheme: unknown placeholders pass through verbatim.
pub proof fn lemma_unknown_placeholders_kept(m: Map<Seq<char>, Seq<char>>, t: Seq<char>)
    requires
        forall|a: int, e: int| 0 <= a < e < t.len() && t[a] == '{' && t[e] == '}' ==> !m.contains_key(#[trigger] t.subrange(a + 1, e)),
    ensures
        render(m, t) == t,
{
    lemma_render_no_known_token(m, t, 0);
    assert(t.subrange(0, t.len() as int) =~= t);
}

/// The characters of `s`, in order.
pub(crate) fn chars_of(s: &str) -> (r: Vec<char>)
    ensures
        r@ == s@,
{
    let mut r: Vec<char> = Vec::new();
    for c in it: s.chars()
        invariant
            r@ == it.seq().take(it.index() as int),
    {
        r.push(c);
    }
    proof {
        assert(r@ =~= s@);
    }
    r
}

/// Whether `a` equals the characters of `t` from `from` up to `to`.
fn chars_equal(a: &Vec<char>, t: &Vec<char>, from: usize, to: usize) -> (r: bool)
    requires
        from <= to <= t@.len(),
    ensures
        r == (a@ == t@.subrange(from as int, to as int)),
{
    if a.len() != to - from {
        return false;
    }
    for k in 0..a.len()
        invariant
            a@.len() == to - from,
            from <= to <= t@.len(),
            forall|j: int| 0 <= j < k ==> a@[j] == t@[from + j],
    {
        if a[k] != t[from + k] {
            assert(a@[k as int] != t@.subrange(from as int, to as int)[k as int]);
            return false;
        }
    }
    assert(a@ =~= t@.subrange(from as int, to as int));
    true
}

/// Index of the last key equal to the characters of `t` from `from` up to `to`.
fn find_key(keys: &Vec<Vec<char>>, t: &Vec<char>, from: usize, to: usize) -> (r: Option<usize>)
    requires
        from <= to <= t@.len(),
    ensures
        match r {
            Some(k) => k < keys@.len() && keys@[k as int]@ == t@.subrange(from as int, to as int)
                && forall|j: int| k < j < keys@.len() ==> keys@[j]@ != t@.subrange(from as int, to as int),
            None => forall|j: int| 0 <= j < keys@.len() ==> keys@[j]@ != t@.subrange(from as int, to as int),
        },
{
    let mut k: usize = keys.len();
    while k > 0
        invariant
            k <= keys@.len(),
            from <= to <= t@.len(),
            forall|j: int| k <= j < keys@.len() ==> keys@[j]@ != t@.subrange(from as int, to as int),
        decreases k,
    {
        k = k - 1;
        if chars_equal(&keys[k], t, from, to) {
            return Some(k);
        }
    }
    None
}

/// The length of the longest key of `scheme` whose placeholder starts at
/// position `i` of `t`, if any; `keys` holds the entries' names.
fn longest_token(scheme: &Colorscheme, keys: &Vec<Vec<char>>, t: &Vec<char>, i: usize) -> (r: Option<usize>)
    requires
        i < t@.len(),
        t@[i as int] == '{',
        keys@.len() == scheme.entries@.len(),
        forall|j: int| 0 <= j < keys@.len() ==> (#[trigger] keys@[j])@ == scheme.entries@[j].0@,
    ensures
        match r {
            Some(len) => is_token_len(scheme@, t@, i as int, len as int),
            None => !exists|len: int| is_token_len(scheme@, t@, i as int, len),
        },
{
    let ghost m = scheme@;
    let n = t.len();
    let mut best: Option<usize> = None;
    for j in 0..keys.len()
        invariant
            n == t@.len(),
            i < n,
            m == assoc(scheme.entries@),
            keys@.len() == scheme.entries@.len(),
            forall|j: int| 0 <= j < keys@.len() ==> (#[trigger] keys@[j])@ == scheme.entries@[j].0@,
            match best {
                Some(b) => closes_key(m, t@, i as int, b as int)
                    && forall|jj: int| 0 <= jj < j && #[trigger] closes_key(m, t@, i as int, keys@[jj]@.len() as int)
                        && keys@[jj]@ == t@.subrange(i + 1, i + 1 + keys@[jj]@.len()) ==> keys@[jj]@.len() <= b,
                None => forall|jj: int| 0 <= jj < j ==> !(#[trigger] closes_key(m, t@, i as int, keys@[jj]@.len() as int)
                    && keys@[jj]@ == t@.subrange(i + 1, i + 1 + keys@[jj]@.len())),
            },
    {
        let kl = keys[j].len();
        if kl < n - (i + 1) && t[i + 1 + kl] == '}' && chars_equal(&keys[j], t, i + 1, i + 1 + kl) {
            proof {
                lemma_assoc_contains(scheme.entries@, j as int);
                assert(keys@[j as int]@ == scheme.entries@[j as int].0@);
            }
            match best {
                None => {
                    best = Some(kl);
                },
                Some(b) => {
                    if kl > b {
                        best = Some(kl);
                    }
                },
            }
        }
    }
    proof {
        assert forall|l: int| #[trigger] closes_key(m, t@, i as int, l) implies
            (match best { Some(b) => l <= b, None => false }) by {
            let key = t@.subrange(i + 1, i + 1 + l);
            if !(exists|jj: int| 0 <= jj < scheme.entries@.len() && scheme.entries@[jj].0@ == key) {
                lemma_assoc_absent(scheme.entries@, key);
            }
            let jj = choose|jj: int| 0 <= jj < scheme.entries@.len() && scheme.entries@[jj].0@ == key;
            assert(keys@[jj]@ == key);
            assert(keys@[jj]@.len() == l);
        }
    }
    best
}

/// Substitutes the colors of `scheme` for their placeholders in `input`.
pub fn render_text(scheme: &Colorscheme, input: &str) -> (r: String)
    ensures
        r@ == render(scheme@, input@),
{
    let ghost m = scheme@;
    let t = chars_of(input);
    let n = t.len();
    let mut keys: Vec<Vec<char>> = Vec::new();
    for k in 0..scheme.entries.len()
        invariant
            keys@.len() == k,
            forall|j: int| 0 <= j < k ==> (#[trigger] keys@[j])@ == scheme.entries@[j].0@,
    {
        keys.push(chars_of(scheme.entries[k].0.as_str()));
    }
    let mut out = String::new();
    let mut run: usize = 0;
    let mut i: usize = 0;
    while i < n
        invariant
            n == t@.len(),
            t@ == input@,
            m == scheme@,
            m == assoc(scheme.entries@),
            keys@.len() == scheme.entries@.len(),
            forall|j: int| 0 <= j < keys@.len() ==> (#[trigger] keys@[j])@ == scheme.entries@[j].0@,
            run <= i <= n,
            out@ + t@.subrange(run as int, i as int) + render_from(m, t@, i as int) == render(m, t@),
        decreases n - i,
    {
        let mut matched = false;
        if t[i] == '{' {
            match longest_token(scheme, &keys, &t, i) {
                Some(len) => {
                    let ghost key = t@.subrange(i + 1, i + 1 + len);
                    proof {
                        let c = choose|l: int| is_token_len(m, t@, i as int, l);
                        if c < len {
                            assert(!closes_key(m, t@, i as int, len as int));
                        } else if c > len {
                            assert(!closes_key(m, t@, i as int, c));
                        }
                    }
                    match find_key(&keys, &t, i + 1, i + 1 + len) {
                        Some(k) => {
                            proof {
                                assert(keys@[k as int]@ == scheme.entries@[k as int].0@);
                                assert forall|j: int| k < j < scheme.entries@.len() implies scheme.entries@[j].0@ != scheme.entries@[k as int].0@ by {
                                    assert(keys@[j]@ == scheme.entries@[j].0@);
                                }
                                lemma_assoc_last(scheme.entries@, k as int);
                                assert(out@ + t@.subrange(run as int, i as int) + m[key] + render_from(m, t@, i + 2 + len)
                                    =~= out@ + t@.subrange(run as int, i as int) + render_from(m, t@, i as int));
                            }
                            out.append(input.substring_char(run, i));
                            out.append(scheme.entries[k].1.0.as_str());
                            run = i + 2 + len;
                            i = i + 2 + len;
                            matched = true;
                            assert(t@.subrange(run as int, i as int) =~= Seq::<char>::empty());
                            assert(out@ + t@.subrange(run as int, i as int) + render_from(m, t@, i as int) =~= render(m, t@));
                        },
                        None => {
                            proof {
                                assert forall|j: int| 0 <= j < scheme.entries@.len() implies scheme.entries@[j].0@ != key by {
                                    assert(keys@[j]@ == scheme.entries@[j].0@);
                                }
                                lemma_assoc_absent(scheme.entries@, key);
                            }
                        },
                    }
                },
                None => {},
            }
        }
        if !matched {
            proof {
                assert(render_from(m, t@, i as int) == seq![t@[i as int]] + render_from(m, t@, i + 1));
                assert(out@ + t@.subrange(run as int, i + 1) + render_from(m, t@, i + 1)
                    =~= out@ + t@.subrange(run as int, i as int) + render_from(m, t@, i as int));
            }
            i = i + 1;
        }
    }
    out.append(input.substring_char(run, n));
    assert(out@ =~= render(m, t@));
    out
}

} // verus!
