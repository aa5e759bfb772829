//! Directory-listing presentation logic: hidden entries are dropped, and
//! the rest are ordered directories-first, then by name.

use vstd::multiset::Multiset;
use vstd::prelude::*;

verus! {

/// One entry of a directory listing, as handed over by the file-system
/// layer: a name, a full path, and what kind of entry it is.
pub struct FileInfo {
    pub name: Vec<u8>,
    pub path: Vec<u8>,
    pub is_directory: bool,
    pub is_file: bool,
}

/// Hidden entries (names starting with a dot) are not listed.
pub open spec fn is_hidden(f: FileInfo) -> bool {
    f.name@.len() > 0 && f.name@[0] == 46
}

/// The filter predicate for visible entries, as one shared value.
pub open spec fn visible_pred() -> spec_fn(FileInfo) -> bool {
    |f: FileInfo| !is_hidden(f)
}

/// Byte-wise lexicographic order, shorter strings first among prefixes.
pub open spec fn lex_le(a: Seq<u8>, b: Seq<u8>) -> bool
    decreases a.len(),
{
    if a.len() == 0 {
        true
    } else if b.len() == 0 {
        false
    } else if a[0] < b[0] {
        true
    } else if a[0] > b[0] {
        false
    } else {
        lex_le(a.skip(1), b.skip(1))
    }
}

/// The listing order: directories before files, then by name.
pub open spec fn listing_le(a: FileInfo, b: FileInfo) -> bool {
    if a.is_directory != b.is_directory {
        a.is_directory
    } else {
        lex_le(a.name@, b.name@)
    }
}

pub proof fn lemma_lex_le_refl(a: Seq<u8>)
    ensures
        lex_le(a, a),
    decreases a.len(),
{
    if a.len() > 0 {
        lemma_lex_le_refl(a.skip(1));
    }
}

/// The order is total.
pub proof fn lemma_lex_le_total(a: Seq<u8>, b: Seq<u8>)
    ensures
        lex_le(a, b) || lex_le(b, a),
    decreases a.len(),
{
    if a.len() > 0 && b.len() > 0 && a[0] == b[0] {
        lemma_lex_le_total(a.skip(1), b.skip(1));
    }
}

/// Compare two names.
pub fn lex_le_bytes(a: &Vec<u8>, b: &Vec<u8>) -> (r: bool)
    ensures
        r == lex_le(a@, b@),
{
    let mut i: usize = 0;
    proof {
        assert(a@.skip(0) =~= a@);
        assert(b@.skip(0) =~= b@);
    }
    loop
        invariant
            i <= a@.len(),
            i <= b@.len(),
            lex_le(a@, b@) == lex_le(a@.skip(i as int), b@.skip(i as int)),
        decreases a@.len() - i,
    {
        if i == a.len() {
            proof {
                assert(a@.skip(i as int).len() == 0);
            }
            return true;
        }
        if i == b.len() {
            proof {
                assert(b@.skip(i as int).len() == 0);
                assert(a@.skip(i as int).len() > 0);
            }
            return false;
        }
        let x = a[i];
        let y = b[i];
        proof {
            assert(a@.skip(i as int)[0] == a@[i as int]);
            assert(b@.skip(i as int)[0] == b@[i as int]);
        }
        if x < y {
            return true;
        }
        if x > y {
            return false;
        }
        proof {
            assert(a@.skip(i as int).skip(1) =~= a@.skip(i + 1));
            assert(b@.skip(i as int).skip(1) =~= b@.skip(i + 1));
        }
        i = i + 1;
    }
}

/// Compare two listing entries.
pub fn listing_le_entries(a: &FileInfo, b: &FileInfo) -> (r: bool)
    ensures
        r == listing_le(*a, *b),
{
    if a.is_directory != b.is_directory {
        a.is_directory
    } else {
        lex_le_bytes(&a.name, &b.name)
    }
}

/// Drop the hidden entries of a listing, keeping the rest in order.
pub fn filter_visible(input: Vec<FileInfo>) -> (r: Vec<FileInfo>)
    ensures
        r@ == input@.filter(visible_pred()),
{
    let ghost orig = input@;
    let n = input.len();
    let mut rest = input;
    let mut r: Vec<FileInfo> = Vec::new();
    let mut i: usize = 0;
    proof {
        reveal_with_fuel(Seq::filter, 1);
        assert(orig.take(0) =~= Seq::<FileInfo>::empty());
        assert(orig.skip(0) =~= orig);
    }
    while rest.len() > 0
        invariant
            i <= orig.len(),
            orig.len() == n,
            rest@.len() + i == orig.len(),
            rest@ == orig.skip(i as int),
            r@ == orig.take(i as int).filter(visible_pred()),
        decreases rest@.len(),
    {
        let f = rest.remove(0);
        proof {
            assert(orig.skip(i as int)[0] == orig[i as int]);
            assert(orig.skip(i as int).remove(0) =~= orig.skip(i + 1));
        }
        let hidden = f.name.len() > 0 && f.name[0] == 46;
        let ghost pre = r@;
        proof {
            assert(hidden == is_hidden(orig[i as int]));
        }
        if !hidden {
            r.push(f);
        }
        proof {
            reveal_with_fuel(Seq::filter, 2);
            let t1 = orig.take(i + 1);
            assert(t1.drop_last() =~= orig.take(i as int));
            assert(t1.last() == orig[i as int]);
            assert(t1.filter(visible_pred()) == (if visible_pred()(t1.last()) {
                t1.drop_last().filter(visible_pred()).push(t1.last())
            } else {
                t1.drop_last().filter(visible_pred())
            }));
        }
        i = i + 1;
    }
    proof {
        assert(orig.take(i as int) =~= orig);
    }
    r
}

/// Order a listing: directories first, then by name. The result holds
/// exactly the given entries.
pub fn sort_entries(input: Vec<FileInfo>) -> (r: Vec<FileInfo>)
    ensures
        r@.to_multiset() == input@.to_multiset(),
        r@.len() == input@.len(),
        forall|i: int, j: int| 0 <= i < j < r@.len() ==> listing_le(#[trigger] r@[i], #[trigger] r@[j]),
{
    broadcast use vstd::seq_lib::group_to_multiset_ensures;

    let mut rest = input;
    let mut out: Vec<FileInfo> = Vec::new();
    let ghost orig = rest@.to_multiset();
    proof {
        assert(out@.to_multiset().add(rest@.to_multiset()) =~= orig);
    }
    while rest.len() > 0
        invariant
            out@.to_multiset().add(rest@.to_multiset()) == orig,
            out@.len() + rest@.len() == input@.len(),
            forall|i: int, j: int|
                0 <= i < j < out@.len() ==> listing_le(#[trigger] out@[i], #[trigger] out@[j]),
            forall|i: int, j: int|
                0 <= i < out@.len() && 0 <= j < rest@.len() ==> listing_le(
                    #[trigger] out@[i],
                    #[trigger] rest@[j],
                ),
        decreases rest@.len(),
    {
        // select the least remaining entry
        let mut m: usize = 0;
        let mut k: usize = 1;
        proof {
            lemma_lex_le_refl(rest@[0].name@);
        }
        while k < rest.len()
            invariant
                m < k <= rest@.len(),
                rest@.len() > 0,
                forall|j: int| 0 <= j < k ==> listing_le(rest@[m as int], #[trigger] rest@[j]),
            decreases rest@.len() - k,
        {
            if !listing_le_entries(&rest[m], &rest[k]) {
                proof {
                    lemma_lex_le_total(rest@[m as int].name@, rest@[k as int].name@);
                    lemma_lex_le_refl(rest@[k as int].name@);
                    assert(listing_le(rest@[k as int], rest@[m as int]));
                    assert forall|j: int| 0 <= j < k + 1 implies listing_le(
                        rest@[k as int],
                        #[trigger] rest@[j],
                    ) by {
                        if j < k {
                            assert(listing_le(rest@[m as int], rest@[j]));
                            lemma_listing_le_trans(rest@[k as int], rest@[m as int], rest@[j]);
                        }
                    }
                }
                m = k;
            } else {
                proof {
                    assert forall|j: int| 0 <= j < k + 1 implies listing_le(
                        rest@[m as int],
                        #[trigger] rest@[j],
                    ) by {}
                }
            }
            k = k + 1;
        }
        let ghost pre_rest = rest@;
        let ghost pre_out = out@;
        let x = rest.remove(m);
        out.push(x);
        proof {
            pre_rest.to_multiset_ensures();
            pre_out.to_multiset_ensures();
            assert(rest@ == pre_rest.remove(m as int));
            assert(rest@.to_multiset() =~= pre_rest.to_multiset().remove(pre_rest[m as int]));
            assert(out@ == pre_out.push(pre_rest[m as int]));
            assert(out@.to_multiset() =~= pre_out.to_multiset().insert(pre_rest[m as int]));
            assert(pre_rest.to_multiset().count(pre_rest[m as int]) > 0);
            assert(out@.to_multiset().add(rest@.to_multiset()) =~= orig);
            assert forall|i: int, j: int|
                0 <= i < out@.len() && 0 <= j < rest@.len() implies listing_le(
                #[trigger] out@[i],
                #[trigger] rest@[j],
            ) by {
                if i < pre_out.len() {
                    if j < m {
                        assert(rest@[j] == pre_rest[j]);
                        assert(listing_le(pre_out[i], pre_rest[j]));
                    } else {
                        assert(rest@[j] == pre_rest[j + 1]);
                        assert(listing_le(pre_out[i], pre_rest[j + 1]));
                    }
                } else {
                    assert(out@[i] == pre_rest[m as int]);
                    if j < m {
                        assert(rest@[j] == pre_rest[j]);
                        assert(listing_le(pre_rest[m as int], pre_rest[j]));
                    } else {
                        assert(rest@[j] == pre_rest[j + 1]);
                        assert(listing_le(pre_rest[m as int], pre_rest[j + 1]));
                    }
                }
            }
        }
    }
    proof {
        rest@.to_multiset_ensures();
        assert forall|x: FileInfo|
            rest@.to_multiset().count(x) == Multiset::<FileInfo>::empty().count(x) by {
            if rest@.to_multiset().count(x) > 0 {
                assert(rest@.contains(x));
            }
        }
        assert(rest@.to_multiset() =~= Multiset::<FileInfo>::empty());
        assert(out@.to_multiset().add(rest@.to_multiset()) =~= out@.to_multiset());
    }
    out
}

/// The order is transitive, so a selected minimum stays below everything.
pub proof fn lemma_lex_le_trans(a: Seq<u8>, b: Seq<u8>, c: Seq<u8>)
    requires
        lex_le(a, b),
        lex_le(b, c),
    ensures
        lex_le(a, c),
    decreases a.len() + b.len() + c.len(),
{
    if a.len() > 0 && b.len() > 0 && c.len() > 0 {
        if a[0] == b[0] && b[0] == c[0] {
            lemma_lex_le_trans(a.skip(1), b.skip(1), c.skip(1));
        }
    }
}

pub proof fn lemma_listing_le_trans(a: FileInfo, b: FileInfo, c: FileInfo)
    requires
        listing_le(a, b),
        listing_le(b, c),
    ensures
        listing_le(a, c),
{
    if a.is_directory == b.is_directory && b.is_directory == c.is_directory {
        lemma_lex_le_trans(a.name@, b.name@, c.name@);
    }
}

} // verus!
