//! Path derivations used around the engine: decimal counters, the
//! timestamped sibling filename a copy-both resolution writes, the
//! text-versus-binary extension heuristic, encrypted-file naming, and the
//! containment test that guards moves.

use vstd::prelude::*;

verus! {

/// The decimal digits of `n`, most significant first.
pub open spec fn dec_rep(n: nat) -> Seq<u8>
    decreases n,
{
    if n < 10 {
        seq![(48 + n) as u8]
    } else {
        dec_rep(n / 10).push((48 + n % 10) as u8)
    }
}

/// Format `n` in decimal.
pub fn dec_digits(n: u64) -> (r: Vec<u8>)
    ensures
        r@ == dec_rep(n as nat),
    decreases n,
{
    if n < 10 {
        let mut r: Vec<u8> = Vec::new();
        r.push(48 + n as u8);
        proof {
            assert(r@ =~= dec_rep(n as nat));
        }
        r
    } else {
        let mut r = dec_digits(n / 10);
        r.push(48 + (n % 10) as u8);
        proof {
            assert((48 + (n % 10) as u8) == (48 + (n as nat) % 10) as u8);
        }
        r
    }
}

/// The position of the last `.`, if any.
pub open spec fn last_dot_from(s: Seq<u8>, i: int) -> Option<int>
    decreases i,
{
    if i <= 0 || i > s.len() {
        None
    } else if s[i - 1] == 46 {
        Some(i - 1)
    } else {
        last_dot_from(s, i - 1)
    }
}

pub open spec fn last_dot(s: Seq<u8>) -> Option<int> {
    last_dot_from(s, s.len() as int)
}

proof fn lemma_last_dot_found(s: Seq<u8>, i: int, j: int)
    requires
        0 <= j < i <= s.len(),
        s[j] == 46,
        forall|k: int| j < k < i ==> s[k] != 46,
    ensures
        last_dot_from(s, i) == Some(j),
    decreases i,
{
    if j < i - 1 {
        lemma_last_dot_found(s, i - 1, j);
    }
}

proof fn lemma_last_dot_none(s: Seq<u8>, i: int)
    requires
        i <= s.len(),
        forall|k: int| 0 <= k < i ==> s[k] != 46,
    ensures
        last_dot_from(s, i) is None,
    decreases i,
{
    if i > 0 {
        lemma_last_dot_none(s, i - 1);
    }
}

/// Find the last `.` of a path.
pub fn find_last_dot(s: &Vec<u8>) -> (r: Option<usize>)
    ensures
        match r {
            Some(j) => last_dot(s@) == Some(j as int) && j < s@.len(),
            None => last_dot(s@) is None,
        },
{
    let mut i: usize = s.len();
    while i > 0
        invariant
            i <= s@.len(),
            forall|k: int| i <= k < s@.len() ==> s@[k] != 46,
        decreases i,
    {
        i = i - 1;
        if s[i] == 46 {
            proof {
                lemma_last_dot_found(s@, s@.len() as int, i as int);
            }
            return Some(i);
        }
    }
    proof {
        lemma_last_dot_none(s@, s@.len() as int);
    }
    None
}

/// The sibling filename a copy-both resolution writes: the original path
/// with `_<timestamp>` inserted before the extension, or appended when the
/// path has no extension (a leading dot does not count as one).
pub open spec fn sibling_spec(p: Seq<u8>, ts: nat) -> Seq<u8> {
    match last_dot(p) {
        Some(i) => if i > 0 {
            p.take(i) + seq![95u8] + dec_rep(ts) + p.skip(i)
        } else {
            p + seq![95u8] + dec_rep(ts)
        },
        None => p + seq![95u8] + dec_rep(ts),
    }
}

/// The sibling name is strictly longer than the path, so it never equals
/// the path itself.
pub proof fn lemma_sibling_longer(p: Seq<u8>, ts: nat)
    ensures
        sibling_spec(p, ts).len() > p.len(),
        sibling_spec(p, ts) != p,
{
    lemma_dec_rep_len(ts);
    match last_dot(p) {
        Some(i) => {
            if i > 0 {
                assert(last_dot_from(p, p.len() as int) == Some(i));
                lemma_last_dot_in_range(p, p.len() as int);
                assert(0 <= i < p.len());
                assert(sibling_spec(p, ts).len() == i + 1 + dec_rep(ts).len() + (p.len() - i));
            } else {
                assert(sibling_spec(p, ts).len() == p.len() + 1 + dec_rep(ts).len());
            }
        },
        None => {
            assert(sibling_spec(p, ts).len() == p.len() + 1 + dec_rep(ts).len());
        },
    }
}

proof fn lemma_last_dot_in_range(p: Seq<u8>, i: int)
    requires
        i <= p.len(),
        last_dot_from(p, i) is Some,
    ensures
        0 <= last_dot_from(p, i)->0 < i,
    decreases i,
{
    if i > 0 && p[i - 1] != 46 {
        lemma_last_dot_in_range(p, i - 1);
    }
}

proof fn lemma_dec_rep_len(n: nat)
    ensures
        dec_rep(n).len() >= 1,
    decreases n,
{
    if n >= 10 {
        lemma_dec_rep_len(n / 10);
    }
}

/// Derive the sibling filename for a copy-both resolution.
pub fn sibling_name(path: &Vec<u8>, ts: u64) -> (r: Vec<u8>)
    ensures
        r@ == sibling_spec(path@, ts as nat),
{
    let digits = dec_digits(ts);
    let dot = find_last_dot(path);
    let cut: usize = match dot {
        Some(i) => if i > 0 {
            i
        } else {
            path.len()
        },
        None => path.len(),
    };
    let mut r: Vec<u8> = Vec::new();
    let mut i: usize = 0;
    while i < cut
        invariant
            i <= cut,
            cut <= path@.len(),
            r@ == path@.take(i as int),
        decreases cut - i,
    {
        r.push(path[i]);
        proof {
            assert(path@.take(i + 1) =~= path@.take(i as int).push(path@[i as int]));
        }
        i = i + 1;
    }
    r.push(95u8);
    let mut k: usize = 0;
    while k < digits.len()
        invariant
            k <= digits@.len(),
            cut <= path@.len(),
            r@ == path@.take(cut as int) + seq![95u8] + digits@.take(k as int),
        decreases digits@.len() - k,
    {
        r.push(digits[k]);
        proof {
            assert(path@.take(cut as int) + seq![95u8] + digits@.take(k + 1) =~= (path@.take(
                cut as int,
            ) + seq![95u8] + digits@.take(k as int)).push(digits@[k as int]));
        }
        k = k + 1;
    }
    proof {
        assert(digits@.take(digits@.len() as int) =~= digits@);
    }
    let mut j: usize = cut;
    while j < path.len()
        invariant
            cut <= j <= path@.len(),
            r@ == path@.take(cut as int) + seq![95u8] + digits@ + path@.subrange(
                cut as int,
                j as int,
            ),
        decreases path@.len() - j,
    {
        r.push(path[j]);
        proof {
            assert(path@.subrange(cut as int, j + 1) =~= path@.subrange(cut as int, j as int).push(
                path@[j as int],
            ));
            assert(r@ =~= path@.take(cut as int) + seq![95u8] + digits@ + path@.subrange(
                cut as int,
                j + 1,
            ));
        }
        j = j + 1;
    }
    proof {
        assert(path@.subrange(cut as int, path@.len() as int) =~= path@.skip(cut as int));
        match last_dot(path@) {
            Some(i) => {
                if i > 0 {
                    assert(r@ =~= sibling_spec(path@, ts as nat));
                } else {
                    assert(path@.take(path@.len() as int) =~= path@);
                    assert(path@.skip(path@.len() as int) =~= Seq::<u8>::empty());
                    assert(r@ =~= sibling_spec(path@, ts as nat));
                }
            },
            None => {
                assert(path@.take(path@.len() as int) =~= path@);
                assert(path@.skip(path@.len() as int) =~= Seq::<u8>::empty());
                assert(r@ =~= sibling_spec(path@, ts as nat));
            },
        }
    }
    r
}

/// The extension of a path: the bytes after the last dot, when the dot is
/// not the first byte. Empty otherwise.
pub open spec fn ext_of(p: Seq<u8>) -> Seq<u8> {
    match last_dot(p) {
        Some(i) => if i > 0 {
            p.skip(i + 1)
        } else {
            Seq::<u8>::empty()
        },
        None => Seq::<u8>::empty(),
    }
}

/// The plain-text extensions of the vault's documents. Everything else is
/// treated as binary — a heuristic on the name, not a content sniff.
pub open spec fn is_text_ext(e: Seq<u8>) -> bool {
    ||| e == seq![109u8, 100u8]  // md
    ||| e == seq![116u8, 120u8, 116u8]  // txt
    ||| e == seq![106u8, 115u8, 111u8, 110u8]  // json
    ||| e == seq![121u8, 97u8, 109u8, 108u8]  // yaml
    ||| e == seq![121u8, 109u8, 108u8]  // yml
    ||| e == seq![116u8, 111u8, 109u8, 108u8]  // toml
    ||| e == seq![99u8, 115u8, 118u8]  // csv
    ||| e == seq![120u8, 109u8, 108u8]  // xml
    ||| e == seq![104u8, 116u8, 109u8, 108u8]  // html
    ||| e == seq![99u8, 115u8, 115u8]  // css
    ||| e == seq![106u8, 115u8]  // js
    ||| e == seq![116u8, 115u8]  // ts
}

/// Classify a conflicting path as binary purely by its extension.
pub fn is_binary_path(path: &Vec<u8>) -> (r: bool)
    ensures
        r == !is_text_ext(ext_of(path@)),
{
    let n = path.len();
    let dot = find_last_dot(path);
    let start: usize = match dot {
        Some(i) => if i > 0 {
            proof {
                assert(i < n);
                assert(ext_of(path@).len() == 0 ==> !is_text_ext(ext_of(path@)));
            }
            i + 1
        } else {
            proof {
                assert(ext_of(path@) =~= Seq::<u8>::empty());
                assert(!is_text_ext(ext_of(path@)));
            }
            return true;
        },
        None => {
            proof {
                assert(ext_of(path@) =~= Seq::<u8>::empty());
                assert(!is_text_ext(ext_of(path@)));
            }
            return true;
        },
    };
    let len = n - start;
    let ghost e = ext_of(path@);
    proof {
        assert(e =~= path@.subrange(start as int, n as int));
    }
    let text = if len == 2 {
        let a = path[start];
        let b = path[start + 1];
        proof {
            assert(e[0] == path@[start as int] && e[1] == path@[start as int + 1]);
        }
        (a == 109 && b == 100) || (a == 106 && b == 115) || (a == 116 && b == 115)
    } else if len == 3 {
        let a = path[start];
        let b = path[start + 1];
        let c = path[start + 2];
        proof {
            assert(e[0] == path@[start as int] && e[1] == path@[start as int + 1] && e[2]
                == path@[start as int + 2]);
        }
        (a == 116 && b == 120 && c == 116) || (a == 121 && b == 109 && c == 108) || (a == 99 && b
            == 115 && c == 118) || (a == 120 && b == 109 && c == 108) || (a == 99 && b == 115 && c
            == 115)
    } else if len == 4 {
        let a = path[start];
        let b = path[start + 1];
        let c = path[start + 2];
        let d = path[start + 3];
        proof {
            assert(e[0] == path@[start as int] && e[1] == path@[start as int + 1] && e[2]
                == path@[start as int + 2] && e[3] == path@[start as int + 3]);
        }
        (a == 106 && b == 115 && c == 111 && d == 110) || (a == 121 && b == 97 && c == 109 && d
            == 108) || (a == 116 && b == 111 && c == 109 && d == 108) || (a == 104 && b == 116 && c
            == 109 && d == 108)
    } else {
        false
    };
    proof {
        if text {
            if len == 2 {
                assert(e =~= seq![path@[start as int], path@[start as int + 1]]);
            } else if len == 3 {
                assert(e =~= seq![
                    path@[start as int],
                    path@[start as int + 1],
                    path@[start as int + 2],
                ]);
            } else if len == 4 {
                assert(e =~= seq![
                    path@[start as int],
                    path@[start as int + 1],
                    path@[start as int + 2],
                    path@[start as int + 3],
                ]);
            }
            assert(is_text_ext(e));
        } else {
            assert(!is_text_ext(e)) by {
                if is_text_ext(e) {
                    assert(e.len() == 2 || e.len() == 3 || e.len() == 4);
                    if e.len() == 2 {
                        assert(e[0] == path@[start as int] && e[1] == path@[start as int + 1]);
                    } else if e.len() == 3 {
                        assert(e[0] == path@[start as int] && e[1] == path@[start as int + 1]
                            && e[2] == path@[start as int + 2]);
                    } else {
                        assert(e[0] == path@[start as int] && e[1] == path@[start as int + 1]
                            && e[2] == path@[start as int + 2] && e[3] == path@[start as int
                            + 3]);
                    }
                }
            }
        }
    }
    !text
}

/// The `.enc` suffix every stored vault document carries.
pub open spec fn enc_suffix() -> Seq<u8> {
    seq![46u8, 101u8, 110u8, 99u8]
}

pub open spec fn has_enc_suffix(p: Seq<u8>) -> bool {
    p.len() >= 4 && p.skip(p.len() - 4) == enc_suffix()
}

/// Normalize a document path to its stored form: append `.enc` unless it
/// is already there. Idempotent.
pub fn enc_path(path: &Vec<u8>) -> (r: Vec<u8>)
    ensures
        r@ == if has_enc_suffix(path@) {
            path@
        } else {
            path@ + enc_suffix()
        },
        has_enc_suffix(r@),
{
    let n = path.len();
    let already = if n >= 4 {
        let ok = path[n - 4] == 46 && path[n - 3] == 101 && path[n - 2] == 110 && path[n - 1]
            == 99;
        proof {
            let tail = path@.skip(n - 4);
            assert(tail.len() == 4);
            assert(tail[0] == path@[n - 4] && tail[1] == path@[n - 3] && tail[2] == path@[n - 2]
                && tail[3] == path@[n - 1]);
            if ok {
                assert(tail =~= enc_suffix());
            } else {
                assert(enc_suffix()[0] == 46 && enc_suffix()[1] == 101 && enc_suffix()[2] == 110
                    && enc_suffix()[3] == 99);
            }
        }
        ok
    } else {
        false
    };
    let mut r = crate::store::clone_bytes(path);
    if !already {
        r.push(46u8);
        r.push(101u8);
        r.push(110u8);
        r.push(99u8);
        proof {
            assert(r@ =~= path@ + enc_suffix());
            assert(r@.skip(r@.len() - 4) =~= enc_suffix());
        }
    }
    r
}

/// True iff `b` lies at or under `a` as a path: `b` is `a` itself or `a`
/// followed by a separator. Guards against moving a directory into itself.
pub open spec fn path_within(a: Seq<u8>, b: Seq<u8>) -> bool {
    b.len() >= a.len() && b.take(a.len() as int) == a && (b.len() == a.len() || b[a.len() as int]
        == 47)
}

pub fn is_path_prefix(a: &Vec<u8>, b: &Vec<u8>) -> (r: bool)
    ensures
        r == path_within(a@, b@),
{
    if b.len() < a.len() {
        return false;
    }
    let mut i: usize = 0;
    while i < a.len()
        invariant
            i <= a@.len(),
            a@.len() <= b@.len(),
            forall|k: int| 0 <= k < i ==> a@[k] == b@[k],
        decreases a@.len() - i,
    {
        if a[i] != b[i] {
            proof {
                assert(b@.take(a@.len() as int)[i as int] == b@[i as int]);
            }
            return false;
        }
        i = i + 1;
    }
    proof {
        assert(b@.take(a@.len() as int) =~= a@);
    }
    if b.len() == a.len() {
        true
    } else {
        b[a.len()] == 47
    }
}

/// The exported file's name for a given collision counter: `name.ext` on
/// the first try, `name(counter).ext` afterwards. The caller bumps the
/// counter until the name is free.
pub open spec fn export_name_spec(name: Seq<u8>, ext: Seq<u8>, counter: nat) -> Seq<u8> {
    if counter == 0 {
        name + seq![46u8] + ext
    } else {
        name + seq![40u8] + dec_rep(counter) + seq![41u8] + seq![46u8] + ext
    }
}

/// Build an export filename, disambiguated by `counter` when earlier tries
/// collided with existing files.
pub fn export_file_name(name: &Vec<u8>, ext: &Vec<u8>, counter: u64) -> (r: Vec<u8>)
    ensures
        r@ == export_name_spec(name@, ext@, counter as nat),
{
    let mut r = crate::store::clone_bytes(name);
    if counter > 0 {
        r.push(40u8);
        let digits = dec_digits(counter);
        let mut k: usize = 0;
        while k < digits.len()
            invariant
                k <= digits@.len(),
                r@ == name@ + seq![40u8] + digits@.take(k as int),
            decreases digits@.len() - k,
        {
            r.push(digits[k]);
            proof {
                assert(name@ + seq![40u8] + digits@.take(k + 1) =~= (name@ + seq![40u8]
                    + digits@.take(k as int)).push(digits@[k as int]));
            }
            k = k + 1;
        }
        proof {
            assert(digits@.take(digits@.len() as int) =~= digits@);
        }
        r.push(41u8);
    }
    r.push(46u8);
    let ghost stem = r@;
    let mut k: usize = 0;
    while k < ext.len()
        invariant
            k <= ext@.len(),
            r@ == stem + ext@.take(k as int),
        decreases ext@.len() - k,
    {
        r.push(ext[k]);
        proof {
            assert(stem + ext@.take(k + 1) =~= (stem + ext@.take(k as int)).push(
                ext@[k as int],
            ));
        }
        k = k + 1;
    }
    proof {
        assert(ext@.take(ext@.len() as int) =~= ext@);
        assert(r@ =~= export_name_spec(name@, ext@, counter as nat));
    }
    r
}

} // verus!
