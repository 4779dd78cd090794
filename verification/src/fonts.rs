//! The font that is used: the first one in a directory.
use vstd::prelude::*;

verus! {

/// Whether the one name stands before the other in the order of their bytes.
pub open spec fn stands_before(a: Seq<u8>, b: Seq<u8>) -> bool
    decreases a.len(),
{
    if b.len() == 0 {
        false
    } else if a.len() == 0 {
        true
    } else if a[0] != b[0] {
        a[0] < b[0]
    } else {
        stands_before(a.drop_first(), b.drop_first())
    }
}

/// Whether the byte is the letter, small or capital; `small` is the small one.
pub open spec fn is_letter(byte: u8, small: u8) -> bool {
    byte == small || byte + 32 == small
}

/// Whether the file is a font: its name ends in ".ttf", in small or capital letters, with
/// something before that.
pub open spec fn is_font(name: Seq<u8>) -> bool {
    let n = name.len();
    &&& n > 4
    &&& name[n - 4] == 46
    &&& is_letter(name[n - 3], 116)
    &&& is_letter(name[n - 2], 116)
    &&& is_letter(name[n - 1], 102)
}

/// Whether the file is a font.
pub fn is_font_name(name: &[u8]) -> (res: bool)
    ensures
        res == is_font(name@),
{
    let n: usize = name.len();
    n > 4 && name[n - 4] == 46 && (name[n - 3] == 116 || name[n - 3] == 84) && (name[n - 2] == 116
        || name[n - 2] == 84) && (name[n - 1] == 102 || name[n - 1] == 70)
}

/// Names that start alike are ordered by what follows.
proof fn lemma_stands_before(a: Seq<u8>, b: Seq<u8>, n: int)
    requires
        0 <= n <= a.len(),
        n <= b.len(),
        forall|i: int| 0 <= i < n ==> a[i] == b[i],
    ensures
        stands_before(a, b) == (if n == b.len() {
            false
        } else if n == a.len() {
            true
        } else if a[n] != b[n] {
            a[n] < b[n]
        } else {
            stands_before(a.skip(n), b.skip(n))
        }),
    decreases n,
{
    if n == 0 {
        assert(a.skip(0) =~= a);
        assert(b.skip(0) =~= b);
    } else {
        let x = a.drop_first();
        let y = b.drop_first();
        assert(forall|i: int| 0 <= i < n - 1 ==> x[i] == a[i + 1] && y[i] == b[i + 1]);
        lemma_stands_before(x, y, n - 1);
        assert(x.skip(n - 1) =~= a.skip(n));
        assert(y.skip(n - 1) =~= b.skip(n));
    }
}

/// Whether the one name stands before the other.
pub fn is_before(a: &[u8], b: &[u8]) -> (res: bool)
    ensures
        res == stands_before(a@, b@),
{
    let mut n: usize = 0;
    while n < a.len() && n < b.len() && a[n] == b[n]
        invariant
            n <= a@.len(),
            n <= b@.len(),
            forall|i: int| 0 <= i < n ==> a@[i] == b@[i],
        decreases a@.len() - n,
    {
        n = n + 1;
    }
    proof {
        lemma_stands_before(a@, b@, n as int);
    }
    if n >= b.len() {
        false
    } else if n >= a.len() {
        true
    } else {
        a[n] < b[n]
    }
}

/// The order of names is a strict one: of two different names one stands before the other, and
/// not the other way round.
pub proof fn law_names_ordered(a: Seq<u8>, b: Seq<u8>)
    ensures
        !(stands_before(a, b) && stands_before(b, a)),
        a != b ==> stands_before(a, b) || stands_before(b, a),
        a == b ==> !stands_before(a, b),
    decreases a.len(),
{
    if a.len() > 0 && b.len() > 0 && a[0] == b[0] {
        let x = a.drop_first();
        let y = b.drop_first();
        law_names_ordered(x, y);
        if x == y {
            assert(a =~= seq![a[0]] + x);
            assert(b =~= seq![b[0]] + y);
        }
    } else if a.len() == 0 && b.len() == 0 {
        assert(a =~= b);
    }
}

proof fn lemma_before_transitive(a: Seq<u8>, b: Seq<u8>, c: Seq<u8>)
    requires
        stands_before(a, b),
        !stands_before(c, b),
    ensures
        stands_before(a, c),
    decreases a.len(),
{
    if a.len() > 0 && b.len() > 0 && c.len() > 0 && a[0] == b[0] && b[0] == c[0] {
        lemma_before_transitive(a.drop_first(), b.drop_first(), c.drop_first());
    }
}

/// The first font among the files of a directory, in the order of their names.
pub fn first_font(names: &[Vec<u8>]) -> (first: Option<usize>)
    ensures
        match first {
            Some(n) => {
                &&& n < names@.len()
                &&& is_font(names@[n as int]@)
                &&& forall|i: int|
                    0 <= i < names@.len() && is_font(#[trigger] names@[i]@) ==> !stands_before(
                        names@[i]@,
                        names@[n as int]@,
                    )
            },
            None => forall|i: int| 0 <= i < names@.len() ==> !is_font(#[trigger] names@[i]@),
        },
{
    let mut first: Option<usize> = None;
    for k in 0..names.len()
        invariant
            match first {
                Some(n) => {
                    &&& n < k
                    &&& is_font(names@[n as int]@)
                    &&& forall|i: int|
                        0 <= i < k && is_font(#[trigger] names@[i]@) ==> !stands_before(
                            names@[i]@,
                            names@[n as int]@,
                        )
                },
                None => forall|i: int| 0 <= i < k ==> !is_font(#[trigger] names@[i]@),
            },
    {
        if is_font_name(names[k].as_slice()) {
            match first {
                Some(n) => {
                    if is_before(names[k].as_slice(), names[n].as_slice()) {
                        proof {
                            assert forall|i: int|
                                0 <= i < k + 1 && is_font(
                                    #[trigger] names@[i]@,
                                ) implies !stands_before(names@[i]@, names@[k as int]@) by {
                                law_names_ordered(names@[k as int]@, names@[i]@);
                                if i < k {
                                    lemma_before_transitive(
                                        names@[k as int]@,
                                        names@[n as int]@,
                                        names@[i]@,
                                    );
                                }
                            }
                        }
                        first = Some(k);
                    }
                },
                None => {
                    proof {
                        law_names_ordered(names@[k as int]@, names@[k as int]@);
                    }
                    first = Some(k);
                },
            }
        }
    }
    first
}

/// Whether one of the files is a font.
pub open spec fn holds_font(names: Seq<Vec<u8>>) -> bool {
    exists|i: int| 0 <= i < names.len() && is_font(#[trigger] names[i]@)
}

/// The first font of the first directory that holds one: which directory it is, and which of its
/// files. The directories are given by the names of their files, in the order in which they are
/// searched.
pub fn first_font_in(listings: &[Vec<Vec<u8>>]) -> (first: Option<(usize, usize)>)
    ensures
        match first {
            Some((k, n)) => {
                &&& k < listings@.len()
                &&& forall|j: int| 0 <= j < k ==> !holds_font(#[trigger] listings@[j]@)
                &&& n < listings@[k as int]@.len()
                &&& is_font(listings@[k as int]@[n as int]@)
                &&& forall|i: int|
                    0 <= i < listings@[k as int]@.len() && is_font(
                        #[trigger] listings@[k as int]@[i]@,
                    ) ==> !stands_before(
                        listings@[k as int]@[i]@,
                        listings@[k as int]@[n as int]@,
                    )
            },
            None => forall|j: int| 0 <= j < listings@.len() ==> !holds_font(#[trigger] listings@[j]@),
        },
{
    for k in 0..listings.len()
        invariant
            forall|j: int| 0 <= j < k ==> !holds_font(#[trigger] listings@[j]@),
    {
        match first_font(listings[k].as_slice()) {
            Some(n) => {
                return Some((k, n));
            },
            None => {},
        }
    }
    None
}

/// A name stands before another where it has the smaller byte at the first place at which they
/// differ, or where the other one goes on behind it.
pub proof fn law_first_difference_decides(a: Seq<u8>, b: Seq<u8>, n: int)
    requires
        0 <= n <= a.len(),
        n <= b.len(),
        forall|i: int| 0 <= i < n ==> a[i] == b[i],
    ensures
        n < a.len() && n < b.len() && a[n] != b[n] ==> (stands_before(a, b) <==> a[n] < b[n]),
        n == a.len() && n < b.len() ==> stands_before(a, b),
        n == b.len() ==> !stands_before(a, b),
    decreases n,
{
    if n > 0 {
        assert(a[0] == b[0]);
        law_first_difference_decides(a.drop_first(), b.drop_first(), n - 1);
    }
}

/// A file is a font by the end of its name, in small letters, capitals or both, and only where
/// something stands before that.
pub proof fn law_font_by_its_end(stem: Seq<u8>, t: u8, u: u8, f: u8)
    ensures
        is_font(stem + seq![46u8, t, u, f]) <==> stem.len() > 0 && (t == 116 || t == 84) && (u == 116
            || u == 84) && (f == 102 || f == 70),
        is_font(stem) ==> stem.len() > 4 && stem[stem.len() - 4] == 46,
{
    let name = stem + seq![46u8, t, u, f];
    assert(name[name.len() - 4] == 46);
    assert(name[name.len() - 3] == t);
    assert(name[name.len() - 2] == u);
    assert(name[name.len() - 1] == f);
}

/// A listing holds a font where one of its names, at whatever place, is that of a font.
pub proof fn law_font_in_listing(names: Seq<Vec<u8>>, i: int)
    ensures
        0 <= i < names.len() && is_font(names[i]@) ==> holds_font(names),
        holds_font(names) ==> exists|k: int| 0 <= k < names.len() && is_font(#[trigger] names[k]@),
{
}

} // verus!
