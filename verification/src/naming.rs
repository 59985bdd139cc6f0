use vstd::prelude::*;

verus! {

/// Common prefix of every semaphore name.
pub const SEMA_NAME: &'static str = "test";

/// The character of decimal digit `d`.
pub open spec fn digit_char(d: nat) -> char {
    if d == 0 {
        '0'
    } else if d == 1 {
        '1'
    } else if d == 2 {
        '2'
    } else if d == 3 {
        '3'
    } else if d == 4 {
        '4'
    } else if d == 5 {
        '5'
    } else if d == 6 {
        '6'
    } else if d == 7 {
        '7'
    } else if d == 8 {
        '8'
    } else {
        '9'
    }
}

/// The decimal representation of `n`, most significant digit first, with no
/// leading zeros.
pub open spec fn decimal(n: nat) -> Seq<char>
    decreases n,
{
    if n < 10 {
        seq![digit_char(n)]
    } else {
        decimal(n / 10).push(digit_char(n % 10))
    }
}

/// Name of the semaphore that guards the cell in which `writer` leaves
/// messages for `reader`: the prefix, the writer and the reader, joined by `-`.
pub open spec fn spec_sema_name(writer: nat, reader: nat) -> Seq<char> {
    seq!['t', 'e', 's', 't', '-'] + decimal(writer) + seq!['-'] + decimal(reader)
}

fn digit_str(d: u32) -> (s: &'static str)
    requires
        d < 10,
    ensures
        s@ == seq![digit_char(d as nat)],
{
    match d {
        0 => {
            proof {
                reveal_strlit("0");
            }
            "0"
        },
        1 => {
            proof {
                reveal_strlit("1");
            }
            "1"
        },
        2 => {
            proof {
                reveal_strlit("2");
            }
            "2"
        },
        3 => {
            proof {
                reveal_strlit("3");
            }
            "3"
        },
        4 => {
            proof {
                reveal_strlit("4");
            }
            "4"
        },
        5 => {
            proof {
                reveal_strlit("5");
            }
            "5"
        },
        6 => {
            proof {
                reveal_strlit("6");
            }
            "6"
        },
        7 => {
            proof {
                reveal_strlit("7");
            }
            "7"
        },
        8 => {
            proof {
                reveal_strlit("8");
            }
            "8"
        },
        _ => {
            proof {
                reveal_strlit("9");
            }
            "9"
        },
    }
}

fn push_decimal(s: &mut String, n: u32)
    ensures
        final(s)@ == old(s)@ + decimal(n as nat),
    decreases n,
{
    if n >= 10 {
        push_decimal(s, n / 10);
    }
    s.append(digit_str(n % 10));
}

/// The name of the semaphore for the pair (writer, reader).
pub fn sema_name(writer: u32, reader: u32) -> (r: String)
    ensures
        r@ == spec_sema_name(writer as nat, reader as nat),
{
    let mut s = String::new();
    proof {
        reveal_strlit("test");
        reveal_strlit("-");
    }
    s.append(SEMA_NAME);
    s.append("-");
    push_decimal(&mut s, writer);
    s.append("-");
    push_decimal(&mut s, reader);
    s
}

/// True when `plan` holds, for each ordered pair of distinct workers among
/// `n`, the name of its semaphore, and nothing for a worker paired with itself.
pub open spec fn is_sema_plan(plan: Seq<Vec<Option<String>>>, n: nat) -> bool {
    &&& plan.len() == n
    &&& forall|i: int| 0 <= i < n ==> (#[trigger] plan[i])@.len() == n
    &&& forall|i: int, j: int|
        0 <= i < n && 0 <= j < n ==> {
            let e = #[trigger] plan[i]@[j];
            if i == j {
                e is None
            } else {
                e matches Some(name) && name@ == spec_sema_name(i as nat, j as nat)
            }
        }
}

/// The semaphore names of all pairs of `worker_num` workers, as a matrix
/// indexed by writer, then reader; the diagonal is empty.
pub fn sema_plan(worker_num: u32) -> (plan: Vec<Vec<Option<String>>>)
    ensures
        is_sema_plan(plan@, worker_num as nat),
{
    let mut plan: Vec<Vec<Option<String>>> = Vec::new();
    let mut i: u32 = 0;
    while i < worker_num
        invariant
            i <= worker_num,
            plan@.len() == i,
            forall|a: int| 0 <= a < i ==> (#[trigger] plan@[a])@.len() == worker_num,
            forall|a: int, b: int|
                0 <= a < i && 0 <= b < worker_num ==> {
                    let e = #[trigger] plan@[a]@[b];
                    if a == b {
                        e is None
                    } else {
                        e matches Some(name) && name@ == spec_sema_name(a as nat, b as nat)
                    }
                },
        decreases worker_num - i,
    {
        let mut row: Vec<Option<String>> = Vec::new();
        let mut j: u32 = 0;
        while j < worker_num
            invariant
                i < worker_num,
                j <= worker_num,
                row@.len() == j,
                forall|b: int|
                    0 <= b < j ==> {
                        let e = #[trigger] row@[b];
                        if i == b {
                            e is None
                        } else {
                            e matches Some(name) && name@ == spec_sema_name(i as nat, b as nat)
                        }
                    },
            decreases worker_num - j,
        {
            if i != j {
                row.push(Some(sema_name(i, j)));
            } else {
                row.push(None);
            }
            j = j + 1;
        }
        plan.push(row);
        i = i + 1;
    }
    plan
}

proof fn lemma_decimal_shape(n: nat)
    ensures
        decimal(n).len() >= 1,
        n >= 10 ==> decimal(n).len() >= 2,
        forall|k: int|
            0 <= k < decimal(n).len() ==> '0' <= #[trigger] decimal(n)[k] && decimal(n)[k] <= '9',
    decreases n,
{
    if n >= 10 {
        lemma_decimal_shape(n / 10);
        assert forall|k: int|
            0 <= k < decimal(n).len() implies '0' <= #[trigger] decimal(n)[k] && decimal(n)[k]
            <= '9' by {
            if k < decimal(n / 10).len() {
                assert(decimal(n)[k] == decimal(n / 10)[k]);
            }
        }
    }
}

proof fn lemma_decimal_injective(a: nat, b: nat)
    requires
        decimal(a) == decimal(b),
    ensures
        a == b,
    decreases a,
{
    lemma_decimal_shape(a);
    lemma_decimal_shape(b);
    if a < 10 {
        assert(b < 10);
        assert(decimal(a) == seq![digit_char(a)]);
        assert(decimal(b) == seq![digit_char(b)]);
        assert(seq![digit_char(a)][0] == digit_char(a));
        assert(seq![digit_char(b)][0] == digit_char(b));
    } else {
        assert(b >= 10);
        let da = decimal(a);
        let db = decimal(b);
        assert(da.last() == db.last());
        assert(a % 10 == b % 10);
        assert(da.drop_last() == decimal(a / 10));
        assert(db.drop_last() == decimal(b / 10));
        lemma_decimal_injective(a / 10, b / 10);
        assert(a == 10 * (a / 10) + a % 10);
        assert(b == 10 * (b / 10) + b % 10);
    }
}

/// Distinct ordered pairs of workers get distinct semaphore names, so no two
/// cells share a semaphore.
pub proof fn lemma_sema_names_distinct(w1: nat, r1: nat, w2: nat, r2: nat)
    requires
        spec_sema_name(w1, r1) == spec_sema_name(w2, r2),
    ensures
        w1 == w2,
        r1 == r2,
{
    let pre = seq!['t', 'e', 's', 't', '-'];
    let a1 = decimal(w1);
    let a2 = decimal(w2);
    let b1 = decimal(r1);
    let b2 = decimal(r2);
    let s1 = spec_sema_name(w1, r1);
    lemma_decimal_shape(w1);
    lemma_decimal_shape(w2);
    assert(s1.len() == 6 + a1.len() + b1.len());
    if a1.len() < a2.len() {
        let k: int = 5 + a1.len() as int;
        assert(s1[k] == '-');
        assert(spec_sema_name(w2, r2)[k] == a2[a1.len() as int]);
        assert(false);
    }
    if a2.len() < a1.len() {
        let k: int = 5 + a2.len() as int;
        assert(spec_sema_name(w2, r2)[k] == '-');
        assert(s1[k] == a1[a2.len() as int]);
        assert(false);
    }
    assert(a1 =~= s1.subrange(5, 5 + a1.len() as int));
    assert(a2 =~= spec_sema_name(w2, r2).subrange(5, 5 + a2.len() as int));
    lemma_decimal_injective(w1, w2);
    assert(b1 =~= s1.subrange(6 + a1.len() as int, s1.len() as int));
    assert(b2 =~= spec_sema_name(w2, r2).subrange(6 + a2.len() as int, s1.len() as int));
    lemma_decimal_injective(r1, r2);
}

} // verus!
