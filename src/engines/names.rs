use vstd::prelude::*;
use vstd::utf8::encode_utf8;

verus! {

/// The number that decimal digits stand for.
pub open spec fn decimal_value(b: Seq<u8>) -> nat
    decreases b.len(),
{
    if b.len() == 0 {
        0
    } else {
        decimal_value(b.drop_last()) * 10 + (b.last() - 48) as nat
    }
}

pub open spec fn all_digits(b: Seq<u8>) -> bool {
    forall|i: int| 0 <= i < b.len() ==> 48 <= #[trigger] b[i] <= 57
}

/// `.log`
pub open spec fn log_suffix() -> Seq<u8> {
    seq![46u8, 108u8, 111u8, 103u8]
}

/// The generation that a segment file's name gives: `<gen>.log`, with the
/// generation in decimal digits.
pub open spec fn gen_of_name(b: Seq<u8>) -> Option<u64> {
    let stem = b.take(b.len() - 4);
    if b.len() > 4 && b.skip(b.len() - 4) == log_suffix() && all_digits(stem) && decimal_value(
        stem,
    ) <= u64::MAX {
        Some(decimal_value(stem) as u64)
    } else {
        None
    }
}

/// Strictly increasing.
pub open spec fn strictly_increasing(s: Seq<u64>) -> bool {
    forall|i: int, j: int| 0 <= i < j < s.len() ==> s[i] < s[j]
}

proof fn lemma_decimal_grows(b: Seq<u8>, i: int, j: int)
    requires
        0 <= i <= j <= b.len(),
        all_digits(b),
    ensures
        decimal_value(b.take(i)) <= decimal_value(b.take(j)),
    decreases j - i,
{
    if i < j {
        lemma_decimal_grows(b, i, j - 1);
        assert(b.take(j).drop_last() =~= b.take(j - 1));
        let v = decimal_value(b.take(j - 1));
        assert(v <= v * 10) by (nonlinear_arith);
    }
}

/// The generation of a segment file named `name`, if it is one.
pub fn log_file_gen(name: &String) -> (r: Option<u64>)
    ensures
        r == gen_of_name(encode_utf8(name@)),
{
    let b = name.as_str().as_bytes();
    let n = b.len();
    if n <= 4 || b[n - 4] != 46 || b[n - 3] != 108 || b[n - 2] != 111 || b[n - 1] != 103 {
        proof {
            if n > 4 && b@.skip(n - 4) == log_suffix() {
                assert(b@.skip(n - 4)[0] == b@[n - 4]);
                assert(b@.skip(n - 4)[1] == b@[n - 3]);
                assert(b@.skip(n - 4)[2] == b@[n - 2]);
                assert(b@.skip(n - 4)[3] == b@[n - 1]);
            }
        }
        return None;
    }
    assert(b@.skip(n - 4) =~= log_suffix());
    let ghost stem = b@.take(n - 4);
    let mut v: u64 = 0;
    let mut i: usize = 0;
    while i < n - 4
        invariant
            n == b@.len(),
            b@ == encode_utf8(name@),
            b@.skip(n - 4) == log_suffix(),
            n > 4,
            i <= n - 4,
            stem == b@.take(n - 4),
            all_digits(stem.take(i as int)),
            v as nat == decimal_value(stem.take(i as int)),
        decreases n - 4 - i,
    {
        let c = b[i];
        assert(stem.take(i + 1).drop_last() =~= stem.take(i as int));
        if c < 48 || c > 57 {
            assert(stem[i as int] == c);
            assert(!all_digits(stem));
            return None;
        }
        let d = (c - 48) as u64;
        if v > (u64::MAX - d) / 10 {
            proof {
                assert(v * 10 + d > u64::MAX) by (nonlinear_arith)
                    requires
                        v > (u64::MAX - d) / 10,
                        d <= 9,
                ;
                if all_digits(stem) {
                    assert(stem.take(i + 1).last() == c);
                    assert(decimal_value(stem.take(i + 1)) == v * 10 + d);
                    lemma_decimal_grows(stem, i + 1, stem.len() as int);
                    assert(stem.take(stem.len() as int) =~= stem);
                    assert(decimal_value(stem) > u64::MAX);
                }
            }
            return None;
        }
        v = v * 10 + d;
        i = i + 1;
        assert(all_digits(stem.take(i as int))) by {
            assert forall|j: int| 0 <= j < i implies 48 <= #[trigger] stem.take(i as int)[j]
                <= 57 by {
                if j < i - 1 {
                    assert(stem.take(i as int)[j] == stem.take(i - 1)[j]);
                }
            }
        }
    }
    assert(stem.take(n - 4) =~= stem);
    Some(v)
}

/// Adds `g` to a strictly increasing list unless it is there already.
fn insert_sorted(v: &mut Vec<u64>, g: u64)
    requires
        strictly_increasing(old(v)@),
    ensures
        strictly_increasing(final(v)@),
        forall|x: u64| final(v)@.contains(x) <==> old(v)@.contains(x) || x == g,
{
    let mut i: usize = 0;
    while i < v.len() && v[i] < g
        invariant
            i <= v@.len(),
            forall|j: int| 0 <= j < i ==> v@[j] < g,
        decreases v@.len() - i,
    {
        i = i + 1;
    }
    if i < v.len() && v[i] == g {
        assert(v@[i as int] == g);
        return ;
    }
    let ghost before = v@;
    v.insert(i, g);
    proof {
        assert forall|x: u64| v@.contains(x) <==> before.contains(x) || x == g by {
            if v@.contains(x) {
                let k = choose|k: int| 0 <= k < v@.len() && v@[k] == x;
                if k < i {
                    assert(before[k] == x);
                } else if k > i {
                    assert(before[k - 1] == x);
                }
            }
            if before.contains(x) {
                let k = choose|k: int| 0 <= k < before.len() && before[k] == x;
                if k < i {
                    assert(v@[k] == x);
                } else {
                    assert(v@[k + 1] == x);
                }
            }
            if x == g {
                assert(v@[i as int] == g);
            }
        }
        assert forall|a: int, b: int| 0 <= a < b < v@.len() implies v@[a] < v@[b] by {
            if b < i {
                assert(v@[a] == before[a] && v@[b] == before[b]);
            } else if b == i {
                assert(v@[a] == before[a]);
            } else if a > i {
                assert(v@[a] == before[a - 1] && v@[b] == before[b - 1]);
            } else if a == i {
                assert(v@[b] == before[b - 1]);
                assert(before[i as int] > g);
                if b - 1 > i {
                    assert(before[i as int] < before[b - 1]);
                }
            } else {
                assert(v@[a] == before[a] && v@[b] == before[b - 1]);
            }
        }
    }
}

/// The generations of the segment files among `names`, in increasing order,
/// each once.
pub fn sorted_gen_list(names: &Vec<String>) -> (r: Vec<u64>)
    ensures
        strictly_increasing(r@),
        forall|g: u64|
            r@.contains(g) <==> exists|i: int|
                0 <= i < names@.len() && gen_of_name(encode_utf8(#[trigger] names@[i]@)) == Some(
                    g,
                ),
{
    let mut out: Vec<u64> = Vec::new();
    let mut i: usize = 0;
    while i < names.len()
        invariant
            i <= names@.len(),
            strictly_increasing(out@),
            forall|g: u64|
                out@.contains(g) <==> exists|j: int|
                    0 <= j < i && gen_of_name(encode_utf8(#[trigger] names@[j]@)) == Some(g),
        decreases names@.len() - i,
    {
        match log_file_gen(&names[i]) {
            Some(g) => insert_sorted(&mut out, g),
            None => {},
        }
        i = i + 1;
    }
    out
}

} // verus!
