//! Recycling of codes: which local users must give up their code before the
//! updates are applied, and the placeholder each of them holds meanwhile.

use crate::index::RosterIndex;
use crate::roster::{entries, entry_of, has_id, Entry, UserWithPointIds};
use vstd::prelude::*;
use vstd::string::StringExecFns;

verus! {

/// The user `u` of the cloud takes `code` and did not hold it locally.
#[verifier::opaque]
pub open spec fn takes(local: Seq<Entry>, u: Entry, code: Seq<char>) -> bool {
    u.user.code == code && has_id(local, u.user.id) && entry_of(local, u.user.id).user.code
        != code
}

/// Some user of `upd` takes `code` and did not hold it locally.
pub open spec fn claimed(local: Seq<Entry>, upd: Seq<Entry>, code: Seq<char>) -> bool {
    exists|i: int| 0 <= i < upd.len() && takes(local, #[trigger] upd[i], code)
}

/// The user `u` of the cloud exists locally, with a code that a user of `upd`
/// newly takes.
pub open spec fn must_recycle(local: Seq<Entry>, upd: Seq<Entry>, u: Entry) -> bool {
    has_id(local, u.user.id) && claimed(local, upd, entry_of(local, u.user.id).user.code)
}

/// The local entries of those users of `part` that must give up their code,
/// in the order of `part`.
pub open spec fn recycled(local: Seq<Entry>, upd: Seq<Entry>, part: Seq<Entry>) -> Seq<Entry>
    decreases part.len(),
{
    if part.len() == 0 {
        Seq::empty()
    } else {
        let rest = recycled(local, upd, part.drop_last());
        if must_recycle(local, upd, part.last()) {
            rest.push(entry_of(local, part.last().user.id))
        } else {
            rest
        }
    }
}

/// The codes of `s`, entry by entry.
pub open spec fn codes(s: Seq<Entry>) -> Seq<Seq<char>> {
    Seq::new(s.len(), |i: int| s[i].user.code)
}

/// `code` followed by `k` marker characters.
pub open spec fn marked(code: Seq<char>, k: nat) -> Seq<char>
    decreases k,
{
    if k == 0 {
        code
    } else {
        marked(code, (k - 1) as nat).push('-')
    }
}

/// `p` is `code` with the fewest markers, at least one, that make it differ
/// from every code of `taken`.
#[verifier::opaque]
pub open spec fn placeholder(p: Seq<char>, code: Seq<char>, taken: Seq<Seq<char>>) -> bool {
    exists|k: nat|
        k >= 1 && p == #[trigger] marked(code, k) && !taken.contains(p) && forall|j: nat|
            1 <= j < k ==> taken.contains(#[trigger] marked(code, j))
}

/// There is one placeholder for a code and the codes taken, and no other.
pub proof fn law_placeholder_is_determined(
    p: Seq<char>,
    q: Seq<char>,
    code: Seq<char>,
    taken: Seq<Seq<char>>,
)
    requires
        placeholder(p, code, taken),
        placeholder(q, code, taken),
    ensures
        p == q,
{
    reveal(placeholder);
    let k = choose|k: nat|
        k >= 1 && p == #[trigger] marked(code, k) && !taken.contains(p) && forall|j: nat|
            1 <= j < k ==> taken.contains(#[trigger] marked(code, j));
    let m = choose|m: nat|
        m >= 1 && q == #[trigger] marked(code, m) && !taken.contains(q) && forall|j: nat|
            1 <= j < m ==> taken.contains(#[trigger] marked(code, j));
    if k < m {
        assert(taken.contains(marked(code, k)));
    } else if m < k {
        assert(taken.contains(marked(code, m)));
    }
}

/// A placeholder is the code with markers behind it, and is not taken.
pub proof fn law_placeholder_is_fresh(p: Seq<char>, code: Seq<char>, taken: Seq<Seq<char>>)
    requires
        placeholder(p, code, taken),
    ensures
        !taken.contains(p),
        p.len() > code.len(),
        p.subrange(0, code.len() as int) == code,
        forall|i: int| code.len() <= i < p.len() ==> p[i] == '-',
{
    reveal(placeholder);
    let k = choose|k: nat|
        k >= 1 && p == #[trigger] marked(code, k) && !taken.contains(p) && forall|j: nat|
            1 <= j < k ==> taken.contains(#[trigger] marked(code, j));
    lemma_marked(code, k);
}

proof fn lemma_marked(code: Seq<char>, k: nat)
    ensures
        marked(code, k).len() == code.len() + k,
        marked(code, k).subrange(0, code.len() as int) == code,
        forall|i: int| code.len() <= i < code.len() + k ==> marked(code, k)[i] == '-',
    decreases k,
{
    if k == 0 {
        assert(marked(code, k).subrange(0, code.len() as int) =~= code);
    } else {
        lemma_marked(code, (k - 1) as nat);
        let shorter = marked(code, (k - 1) as nat);
        assert(marked(code, k) == shorter.push('-'));
        assert(marked(code, k).subrange(0, code.len() as int) =~= shorter.subrange(
            0,
            code.len() as int,
        ));
    }
}

/// The length of the longest code of `taken`.
pub open spec fn longest(taken: Seq<Seq<char>>) -> nat
    decreases taken.len(),
{
    if taken.len() == 0 {
        0
    } else {
        let rest = longest(taken.drop_last());
        if taken.last().len() > rest {
            taken.last().len()
        } else {
            rest
        }
    }
}

proof fn lemma_longest(taken: Seq<Seq<char>>, i: int)
    requires
        0 <= i < taken.len(),
    ensures
        taken[i].len() <= longest(taken),
    decreases taken.len(),
{
    if i < taken.len() - 1 {
        lemma_longest(taken.drop_last(), i);
    }
}

/// A code that a user gives up, and the placeholder the user holds until the
/// update assigns the new code.
#[derive(Debug, Clone)]
pub struct Recycle {
    pub user_id: i64,
    pub code: String,
}

/// The placeholders of `made`, one by one.
pub open spec fn placeholders(made: Seq<Recycle>) -> Seq<Seq<char>> {
    Seq::new(made.len(), |i: int| made[i].code@)
}

/// The codes that a new placeholder must differ from: those of the local
/// users, those of the cloud users, and the placeholders made so far.
pub open spec fn taken_codes(local: Seq<Entry>, cloud: Seq<Entry>, made: Seq<Recycle>) -> Seq<
    Seq<char>,
> {
    codes(local) + codes(cloud) + placeholders(made)
}

/// Decides whether a user of `users` has the code `code`.
pub fn code_among_users(users: &Vec<UserWithPointIds>, code: &String) -> (r: bool)
    ensures
        r == codes(entries(users@)).contains(code@),
{
    let ghost cs = codes(entries(users@));
    let mut i: usize = 0;
    while i < users.len()
        invariant
            i <= users.len(),
            cs == codes(entries(users@)),
            forall|j: int| 0 <= j < i ==> cs[j] != code@,
        decreases users.len() - i,
    {
        assert(cs[i as int] == users@[i as int].user.code@);
        if users[i].user.code == *code {
            return true;
        }
        i += 1;
    }
    false
}

/// Decides whether `code` is one of the placeholders of `made`.
pub fn code_among_placeholders(made: &Vec<Recycle>, code: &String) -> (r: bool)
    ensures
        r == placeholders(made@).contains(code@),
{
    let ghost cs = placeholders(made@);
    let mut i: usize = 0;
    while i < made.len()
        invariant
            i <= made.len(),
            cs == placeholders(made@),
            forall|j: int| 0 <= j < i ==> cs[j] != code@,
        decreases made.len() - i,
    {
        assert(cs[i as int] == made@[i as int].code@);
        if made[i].code == *code {
            return true;
        }
        i += 1;
    }
    false
}

/// Decides whether `code` is one of `taken_codes`.
pub fn code_taken(
    local: &Vec<UserWithPointIds>,
    cloud: &Vec<UserWithPointIds>,
    made: &Vec<Recycle>,
    code: &String,
) -> (r: bool)
    ensures
        r == taken_codes(entries(local@), entries(cloud@), made@).contains(code@),
{
    let ghost a = codes(entries(local@));
    let ghost b = codes(entries(cloud@));
    let ghost c = placeholders(made@);
    let r = code_among_users(local, code) || code_among_users(cloud, code)
        || code_among_placeholders(made, code);
    proof {
        let all = a + b + c;
        if r {
            if a.contains(code@) {
                let i = choose|i: int| 0 <= i < a.len() && a[i] == code@;
                assert(all[i] == code@);
            } else if b.contains(code@) {
                let i = choose|i: int| 0 <= i < b.len() && b[i] == code@;
                assert(all[a.len() + i] == code@);
            } else {
                let i = choose|i: int| 0 <= i < c.len() && c[i] == code@;
                assert(all[a.len() + b.len() + i] == code@);
            }
        } else {
            assert forall|i: int| 0 <= i < all.len() implies all[i] != code@ by {
                if i < a.len() {
                    assert(a[i] != code@);
                } else if i < a.len() + b.len() {
                    assert(b[i - a.len()] != code@);
                } else {
                    assert(c[i - a.len() - b.len()] != code@);
                }
            }
        }
    }
    r
}

/// Makes the placeholder for `code`: `code` with one marker appended, and
/// another for as long as the result is a code already taken.
pub fn make_placeholder(
    local: &Vec<UserWithPointIds>,
    cloud: &Vec<UserWithPointIds>,
    made: &Vec<Recycle>,
    code: &String,
) -> (p: String)
    ensures
        placeholder(p@, code@, taken_codes(entries(local@), entries(cloud@), made@)),
{
    let ghost taken = taken_codes(entries(local@), entries(cloud@), made@);
    let mut candidate = code.clone();
    candidate.append("-");
    let ghost mut k: nat = 1;
    proof {
        reveal_strlit("-");
        assert(candidate@ =~= marked(code@, 1)) by {
            assert(marked(code@, 0) == code@);
            assert("-"@ =~= seq!['-']);
        }
    }
    let mut busy = code_taken(local, cloud, made, &candidate);
    while busy
        invariant
            k >= 1,
            taken == taken_codes(entries(local@), entries(cloud@), made@),
            candidate@ == marked(code@, k),
            busy == taken.contains(candidate@),
            forall|j: nat| 1 <= j < k ==> taken.contains(#[trigger] marked(code@, j)),
        decreases longest(taken) + 1 - candidate@.len(),
    {
        proof {
            let i = choose|i: int| 0 <= i < taken.len() && taken[i] == candidate@;
            lemma_longest(taken, i);
        }
        let ghost before = candidate@;
        candidate.append("-");
        proof {
            reveal_strlit("-");
            assert("-"@ =~= seq!['-']);
            assert(candidate@ =~= before.push('-'));
            k = k + 1;
        }
        busy = code_taken(local, cloud, made, &candidate);
    }
    proof {
        reveal(placeholder);
        assert(candidate@ == marked(code@, k));
    }
    candidate
}

/// Decides `claimed`, given the index of the local roster.
pub fn is_claimed(
    local: &Vec<UserWithPointIds>,
    in_local: &RosterIndex,
    upd: &Vec<UserWithPointIds>,
    code: &String,
) -> (r: bool)
    requires
        in_local.indexes(entries(local@)),
    ensures
        r == claimed(entries(local@), entries(upd@), code@),
{
    let ghost l = entries(local@);
    let ghost u = entries(upd@);
    let mut i: usize = 0;
    while i < upd.len()
        invariant
            i <= upd.len(),
            l == entries(local@),
            u == entries(upd@),
            in_local.indexes(l),
            forall|j: int| 0 <= j < i ==> !takes(l, #[trigger] u[j], code@),
        decreases upd.len() - i,
    {
        let mut hit = false;
        if upd[i].user.code == *code {
            match in_local.find(local, upd[i].user.id) {
                Some(k) => {
                    assert(entries(local@)[k as int] == local@[k as int]@);
                    hit = local[k].user.code != *code;
                },
                None => {},
            }
        }
        assert(hit == takes(l, u[i as int], code@)) by {
            reveal(takes);
            assert(u[i as int] == upd@[i as int]@);
        }
        if hit {
            return true;
        }
        i += 1;
    }
    false
}

/// `out` names the users of `r` in order, each with the placeholder made
/// when the placeholders before it were already taken.
pub open spec fn recycles_for(
    out: Seq<Recycle>,
    r: Seq<Entry>,
    local: Seq<Entry>,
    cloud: Seq<Entry>,
) -> bool {
    &&& out.len() == r.len()
    &&& forall|j: int|
        0 <= j < out.len() ==> (#[trigger] out[j]).user_id == r[j].user.id && placeholder(
            out[j].code@,
            r[j].user.code,
            taken_codes(local, cloud, out.take(j)),
        )
}

proof fn lemma_recycles_push(
    before: Seq<Recycle>,
    r: Seq<Entry>,
    made: Recycle,
    e: Entry,
    local: Seq<Entry>,
    cloud: Seq<Entry>,
)
    requires
        recycles_for(before, r, local, cloud),
        made.user_id == e.user.id,
        placeholder(made.code@, e.user.code, taken_codes(local, cloud, before)),
    ensures
        recycles_for(before.push(made), r.push(e), local, cloud),
{
    let out = before.push(made);
    let all = r.push(e);
    assert(out.take(before.len() as int) =~= before);
    assert forall|j: int| 0 <= j < out.len() implies (#[trigger] out[j]).user_id == all[j].user.id
        && placeholder(out[j].code@, all[j].user.code, taken_codes(local, cloud, out.take(j))) by {
        if j < before.len() {
            assert(out.take(j) =~= before.take(j));
            assert(out[j] == before[j]);
        }
    }
}

/// The users to recycle among `part` and one more user are those among
/// `part`, and the local entry of the one more where it must be recycled.
proof fn lemma_recycled_next(local: Seq<Entry>, upd: Seq<Entry>, part: Seq<Entry>, i: int)
    requires
        0 <= i < part.len(),
    ensures
        recycled(local, upd, part.take(i + 1)) == if must_recycle(local, upd, part[i]) {
            recycled(local, upd, part.take(i)).push(entry_of(local, part[i].user.id))
        } else {
            recycled(local, upd, part.take(i))
        },
{
    assert(part.take(i + 1).drop_last() =~= part.take(i));
    assert(part.take(i + 1).last() == part[i]);
}

/// For each user of `upd` whose local code another user of `upd` newly
/// takes: the user's id and a fresh placeholder, in the order of `upd`.
pub fn codes_to_recycle(
    local: &Vec<UserWithPointIds>,
    cloud: &Vec<UserWithPointIds>,
    upd: &Vec<UserWithPointIds>,
) -> (out: Vec<Recycle>)
    ensures
        recycles_for(
            out@,
            recycled(entries(local@), entries(upd@), entries(upd@)),
            entries(local@),
            entries(cloud@),
        ),
{
    let ghost l = entries(local@);
    let ghost c = entries(cloud@);
    let ghost u = entries(upd@);
    let in_local = RosterIndex::build(local);
    let mut out: Vec<Recycle> = Vec::new();
    let mut i: usize = 0;
    while i < upd.len()
        invariant
            i <= upd.len(),
            l == entries(local@),
            c == entries(cloud@),
            u == entries(upd@),
            in_local.indexes(l),
            recycles_for(out@, recycled(l, u, u.take(i as int)), l, c),
        decreases upd.len() - i,
    {
        proof {
            lemma_recycled_next(l, u, u, i as int);
            assert(u[i as int] == upd@[i as int]@);
        }
        match in_local.find(local, upd[i].user.id) {
            Some(k) => {
                assert(l[k as int] == local@[k as int]@);
                if is_claimed(local, &in_local, upd, &local[k].user.code) {
                    let p = make_placeholder(local, cloud, &out, &local[k].user.code);
                    let made = Recycle { user_id: local[k].user.id, code: p };
                    proof {
                        lemma_recycles_push(
                            out@,
                            recycled(l, u, u.take(i as int)),
                            made,
                            l[k as int],
                            l,
                            c,
                        );
                    }
                    out.push(made);
                }
            },
            None => {},
        }
        i += 1;
    }
    assert(u.take(upd.len() as int) =~= u);
    out
}

} // verus!
