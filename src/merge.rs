//! The collision resolver: newly started contacts become merges, each of which
//! grows the surviving droplet and deletes the other.
use vstd::prelude::*;
use crate::droplet::{Droplet, SIZE_LIMIT};
use crate::fixed::{SCALE, cube_root, cube_root_floor, lemma_cube_root_exists, lemma_cube_monotonic};

verus! {

/// A contact event of the collision index between the droplets in two slots.
#[derive(Clone, Copy, Debug, PartialEq, Eq, Structural)]
pub enum Contact {
    /// The two circles have just begun to overlap.
    Started(usize, usize),
    /// The two circles no longer overlap.
    Ended(usize, usize),
}

/// A change the collision index must make after a merge pass.
#[derive(Clone, Copy, Debug, PartialEq, Eq, Structural)]
pub enum IndexCommand {
    /// Replace the circle of a slot by one of the given radius.
    Reshape(usize, i64),
    /// Take the slot's circle out of the index.
    Remove(usize),
}

/// A contact that breaks the tie between the droplets and the collision index.
#[derive(Clone, Copy, Debug, PartialEq, Eq, Structural)]
pub enum MergeError {
    /// The contact names a slot past the last droplet.
    UnknownDroplet(usize),
    /// The contact names a droplet that was already deleted.
    DeletedDroplet(usize),
    /// The contact names the same slot twice.
    SelfContact(usize),
}

/// Most contacts one merge pass takes.
pub const CONTACT_LIMIT: usize = 0x10_0000;

/// Largest growth of a single absorption under the pass's size bounds.
pub const GROWTH_LIMIT: i64 = 0x4000_0000;

/// Largest size a droplet can reach within one merge pass.
pub const GROWN_LIMIT: i64 = 0x10_0000_0000_0000;

/// How much a droplet grows when it absorbs one of `size`: half the cube root
/// of the absorbed size, in fixed point and rounded down.
pub open spec fn growth(size: int) -> int {
    cube_root((size * SCALE * SCALE) as nat) / 2
}

/// Every live droplet has a size the merge pass takes.
pub open spec fn sizes_ready(ds: Seq<Droplet>) -> bool {
    forall|i: int|
        0 <= i < ds.len() && !(#[trigger] ds[i]).deleted ==> 0 < ds[i].size <= SIZE_LIMIT
}

/// The growth of a droplet that absorbs one of `size`.
pub fn absorbed_growth(size: i64) -> (r: i64)
    requires
        0 < size <= GROWN_LIMIT,
    ensures
        r == growth(size as int),
        0 <= r <= GROWTH_LIMIT,
{
    assert(size * SCALE * SCALE <= 0x10_0000_0000_0000 * 1_000_000 * 1_000_000) by (nonlinear_arith)
        requires
            0 < size <= 0x10_0000_0000_0000,
            SCALE == 1_000_000,
    ;
    let n: u128 = (size as u128) * 1_000_000 * 1_000_000;
    let c = cube_root_floor(n);
    proof {
        lemma_growth_bound(size as int);
    }
    (c / 2) as i64
}

proof fn lemma_growth_bound(size: int)
    requires
        0 < size <= GROWN_LIMIT,
    ensures
        0 <= growth(size) <= GROWTH_LIMIT,
{
    let n = size * SCALE * SCALE;
    assert(0 <= n <= 0x10_0000_0000_0000 * 1_000_000 * 1_000_000) by (nonlinear_arith)
        requires
            0 < size <= 0x10_0000_0000_0000,
            SCALE == 1_000_000,
            n == size * SCALE * SCALE,
    ;
    lemma_cube_root_exists(n as nat);
    let c = cube_root(n as nat);
    if c >= 0x8000_0000 {
        assert(c * c * c >= 0x8000_0000 * 0x8000_0000 * 0x8000_0000) by (nonlinear_arith)
            requires
                c >= 0x8000_0000,
        ;
    }
}

/// Growth rises with the absorbed size (never falls), and a droplet of at
/// least one unit adds less than its own size to the one that absorbs it.
pub proof fn lemma_growth_sub_linear(a: int, b: int)
    requires
        0 < a <= b,
    ensures
        growth(a) <= growth(b),
        b >= SCALE ==> growth(b) < b,
{
    let na = a * SCALE * SCALE;
    let nb = b * SCALE * SCALE;
    assert(0 <= na <= nb) by (nonlinear_arith)
        requires
            0 < a <= b,
            SCALE == 1_000_000,
            na == a * SCALE * SCALE,
            nb == b * SCALE * SCALE,
    ;
    lemma_cube_root_exists(na as nat);
    lemma_cube_root_exists(nb as nat);
    let ca = cube_root(na as nat);
    let cb = cube_root(nb as nat);
    if ca > cb {
        lemma_cube_monotonic(cb + 1, ca);
    }
    if b >= SCALE && cb > b {
        lemma_cube_monotonic(b + 1, cb);
        assert(b * b * b >= b * SCALE * SCALE) by (nonlinear_arith)
            requires
                b >= SCALE,
                SCALE == 1_000_000,
        ;
        assert((b + 1) * (b + 1) * (b + 1) > b * b * b) by (nonlinear_arith)
            requires
                b >= 0,
        ;
    }
}

/// The droplet in slot `a` survives a contact with slot `b`: its radius is
/// larger, or the radii are equal and it stands higher.
pub open spec fn keeps_first(ds: Seq<Droplet>, a: int, b: int) -> bool {
    ds[a].radius > ds[b].radius || (ds[a].radius == ds[b].radius && ds[a].y > ds[b].y)
}

/// The (kept, deleted) slots of a contact between slots `a` and `b`.
pub open spec fn merge_pair_of(ds: Seq<Droplet>, a: usize, b: usize) -> (usize, usize) {
    if keeps_first(ds, a as int, b as int) {
        (a, b)
    } else {
        (b, a)
    }
}

/// What is wrong with a contact, if anything. Ended contacts are ignored.
pub open spec fn contact_problem(ds: Seq<Droplet>, c: Contact) -> Option<MergeError> {
    match c {
        Contact::Started(a, b) => {
            if a >= ds.len() {
                Some(MergeError::UnknownDroplet(a))
            } else if b >= ds.len() {
                Some(MergeError::UnknownDroplet(b))
            } else if a == b {
                Some(MergeError::SelfContact(a))
            } else if ds[a as int].deleted {
                Some(MergeError::DeletedDroplet(a))
            } else if ds[b as int].deleted {
                Some(MergeError::DeletedDroplet(b))
            } else {
                None
            }
        },
        Contact::Ended(_, _) => None,
    }
}

/// The problem of the earliest contact that has one.
pub open spec fn first_problem(ds: Seq<Droplet>, cs: Seq<Contact>) -> Option<MergeError>
    decreases cs.len(),
{
    if cs.len() == 0 {
        None
    } else {
        match first_problem(ds, cs.drop_last()) {
            Some(e) => Some(e),
            None => contact_problem(ds, cs.last()),
        }
    }
}

/// The (kept, deleted) pairs of the started contacts, in report order.
pub open spec fn merge_pairs(ds: Seq<Droplet>, cs: Seq<Contact>) -> Seq<(usize, usize)>
    decreases cs.len(),
{
    if cs.len() == 0 {
        seq![]
    } else {
        let rest = merge_pairs(ds, cs.drop_last());
        match cs.last() {
            Contact::Started(a, b) => rest.push(merge_pair_of(ds, a, b)),
            Contact::Ended(_, _) => rest,
        }
    }
}

/// The kept droplet of `p` absorbs the deleted one: it grows, its circle takes
/// the new size as radius, and it is marked as just collided.
pub open spec fn absorb(ds: Seq<Droplet>, p: (usize, usize)) -> Seq<Droplet> {
    let k = p.0 as int;
    let s = (ds[k].size + growth(ds[p.1 as int].size as int)) as i64;
    ds.update(k, Droplet { size: s, radius: s, collided: true, ..ds[k] })
}

/// The droplets after every pair's absorption, in order.
pub open spec fn grown(ds: Seq<Droplet>, ps: Seq<(usize, usize)>) -> Seq<Droplet>
    decreases ps.len(),
{
    if ps.len() == 0 {
        ds
    } else {
        absorb(grown(ds, ps.drop_last()), ps.last())
    }
}

/// The reshape commands of the absorptions, one per pair.
pub open spec fn reshapes(ds: Seq<Droplet>, ps: Seq<(usize, usize)>) -> Seq<IndexCommand>
    decreases ps.len(),
{
    if ps.len() == 0 {
        seq![]
    } else {
        let k = ps.last().0;
        reshapes(ds, ps.drop_last()).push(IndexCommand::Reshape(k, grown(ds, ps)[k as int].size))
    }
}

/// The droplets after each pair's deleted droplet is marked, in order; a
/// droplet already marked stays as it is.
pub open spec fn tombstoned(ds: Seq<Droplet>, ps: Seq<(usize, usize)>) -> Seq<Droplet>
    decreases ps.len(),
{
    if ps.len() == 0 {
        ds
    } else {
        let r = tombstoned(ds, ps.drop_last());
        let x = ps.last().1 as int;
        if r[x].deleted {
            r
        } else {
            r.update(x, Droplet { deleted: true, ..r[x] })
        }
    }
}

/// The remove commands of the deletions: one per droplet newly marked.
pub open spec fn removals(ds: Seq<Droplet>, ps: Seq<(usize, usize)>) -> Seq<IndexCommand>
    decreases ps.len(),
{
    if ps.len() == 0 {
        seq![]
    } else {
        let rest = removals(ds, ps.drop_last());
        let x = ps.last().1;
        if tombstoned(ds, ps.drop_last())[x as int].deleted {
            rest
        } else {
            rest.push(IndexCommand::Remove(x))
        }
    }
}

/// The pair names two distinct live droplets.
pub open spec fn pair_ok(ds: Seq<Droplet>, p: (usize, usize)) -> bool {
    &&& p.0 < ds.len()
    &&& p.1 < ds.len()
    &&& p.0 != p.1
    &&& !ds[p.0 as int].deleted
    &&& !ds[p.1 as int].deleted
}

proof fn lemma_first_problem_kept(ds: Seq<Droplet>, cs: Seq<Contact>, i: int)
    requires
        0 <= i <= cs.len(),
        first_problem(ds, cs.take(i)) is Some,
    ensures
        first_problem(ds, cs) == first_problem(ds, cs.take(i)),
    decreases cs.len() - i,
{
    if i < cs.len() {
        assert(cs.take(i + 1).drop_last() =~= cs.take(i));
        lemma_first_problem_kept(ds, cs, i + 1);
    } else {
        assert(cs.take(i) =~= cs);
    }
}

/// The kept and deleted slots of a contact between live slots `a` and `b`.
pub fn merge_pair(droplets: &Vec<Droplet>, a: usize, b: usize) -> (p: (usize, usize))
    requires
        a < droplets@.len(),
        b < droplets@.len(),
    ensures
        p == merge_pair_of(droplets@, a, b),
{
    let da = &droplets[a];
    let db = &droplets[b];
    if da.radius > db.radius {
        (a, b)
    } else if da.radius < db.radius {
        (b, a)
    } else if da.y > db.y {
        (a, b)
    } else {
        (b, a)
    }
}

/// The (kept, deleted) pairs of the started contacts, or the first contact's
/// problem.
fn collect_pairs(droplets: &Vec<Droplet>, contacts: &Vec<Contact>) -> (r: Result<
    Vec<(usize, usize)>,
    MergeError,
>)
    ensures
        match first_problem(droplets@, contacts@) {
            Some(e) => r == Err::<Vec<(usize, usize)>, MergeError>(e),
            None => r is Ok && r->Ok_0@ == merge_pairs(droplets@, contacts@),
        },
        r is Ok ==> forall|j: int|
            0 <= j < r->Ok_0@.len() ==> pair_ok(droplets@, #[trigger] r->Ok_0@[j]),
{
    let ghost ds = droplets@;
    let ghost cs = contacts@;
    let mut pairs: Vec<(usize, usize)> = Vec::new();
    let mut i: usize = 0;
    while i < contacts.len()
        invariant
            i <= cs.len(),
            ds == droplets@,
            cs == contacts@,
            first_problem(ds, cs.take(i as int)) is None,
            pairs@ == merge_pairs(ds, cs.take(i as int)),
            forall|j: int| 0 <= j < pairs@.len() ==> pair_ok(ds, #[trigger] pairs@[j]),
        decreases cs.len() - i,
    {
        let c = contacts[i];
        let ghost next = cs.take(i as int + 1);
        assert(next.drop_last() =~= cs.take(i as int));
        assert(next.last() == c);
        match c {
            Contact::Started(a, b) => {
                let n = droplets.len();
                let problem = if a >= n {
                    Some(MergeError::UnknownDroplet(a))
                } else if b >= n {
                    Some(MergeError::UnknownDroplet(b))
                } else if a == b {
                    Some(MergeError::SelfContact(a))
                } else if droplets[a].deleted {
                    Some(MergeError::DeletedDroplet(a))
                } else if droplets[b].deleted {
                    Some(MergeError::DeletedDroplet(b))
                } else {
                    None
                };
                assert(problem == contact_problem(ds, c));
                match problem {
                    Some(e) => {
                        proof {
                            lemma_first_problem_kept(ds, cs, i as int + 1);
                        }
                        return Err(e);
                    },
                    None => {
                        let p = merge_pair(droplets, a, b);
                        pairs.push(p);
                    },
                }
            },
            Contact::Ended(_, _) => {},
        }
        i = i + 1;
    }
    assert(cs.take(i as int) =~= cs);
    Ok(pairs)
}

proof fn lemma_grown_frame(ds: Seq<Droplet>, ps: Seq<(usize, usize)>)
    requires
        forall|j: int| 0 <= j < ps.len() ==> pair_ok(ds, #[trigger] ps[j]),
    ensures
        grown(ds, ps).len() == ds.len(),
        forall|i: int| 0 <= i < ds.len() ==> (#[trigger] grown(ds, ps)[i]).deleted == ds[i].deleted,
        forall|i: int| 0 <= i < ds.len() && ds[i].deleted ==> #[trigger] grown(ds, ps)[i] == ds[i],
    decreases ps.len(),
{
    if ps.len() > 0 {
        let q = ps.drop_last();
        assert forall|j: int| 0 <= j < q.len() implies pair_ok(ds, #[trigger] q[j]) by {
            assert(q[j] == ps[j]);
        }
        lemma_grown_frame(ds, q);
        assert(pair_ok(ds, ps[ps.len() - 1]));
    }
}

proof fn lemma_tombstoned_frame(ds: Seq<Droplet>, ps: Seq<(usize, usize)>)
    requires
        forall|j: int| 0 <= j < ps.len() ==> pair_ok(ds, #[trigger] ps[j]),
    ensures
        tombstoned(ds, ps).len() == ds.len(),
        forall|i: int| 0 <= i < ds.len() && ds[i].deleted ==> #[trigger] tombstoned(ds, ps)[i] == ds[i],
    decreases ps.len(),
{
    if ps.len() > 0 {
        let q = ps.drop_last();
        assert forall|j: int| 0 <= j < q.len() implies pair_ok(ds, #[trigger] q[j]) by {
            assert(q[j] == ps[j]);
        }
        lemma_tombstoned_frame(ds, q);
        assert(pair_ok(ds, ps[ps.len() - 1]));
    }
}

/// Resolves the contact events of one tick. Each started contact becomes a
/// (kept, deleted) pair: the droplet with the larger collision radius is kept;
/// on equal radii the higher one (greater `y`), else the second of the contact.
/// First every kept droplet absorbs its partner, in report order: it grows by
/// half the cube root of the partner's size, its circle's radius becomes its new
/// size, and it is marked as just collided. Then every partner not yet deleted
/// is deleted. Returns the commands that keep the collision index in step:
/// one reshape per pair, then one removal per newly deleted droplet. Ended
/// contacts are ignored. A started contact that names an unknown slot, a
/// deleted droplet or one slot twice is an error, and then nothing changes.
pub fn resolve_contacts(droplets: &mut Vec<Droplet>, contacts: &Vec<Contact>) -> (r: Result<
    Vec<IndexCommand>,
    MergeError,
>)
    requires
        sizes_ready(old(droplets)@),
        contacts@.len() <= CONTACT_LIMIT,
    ensures
        match first_problem(old(droplets)@, contacts@) {
            Some(e) => r == Err::<Vec<IndexCommand>, MergeError>(e) && final(droplets)@ == old(
                droplets,
            )@,
            None => {
                let ps = merge_pairs(old(droplets)@, contacts@);
                let g = grown(old(droplets)@, ps);
                &&& r is Ok
                &&& r->Ok_0@ == reshapes(old(droplets)@, ps) + removals(g, ps)
                &&& final(droplets)@ == tombstoned(g, ps)
            },
        },
{
    let ghost ds = droplets@;
    let pairs = match collect_pairs(droplets, contacts) {
        Ok(p) => p,
        Err(e) => {
            return Err(e);
        },
    };
    let ghost ps = pairs@;
    proof {
        lemma_merge_pairs_len(ds, contacts@);
    }
    let mut commands: Vec<IndexCommand> = Vec::new();
    let mut j: usize = 0;
    while j < pairs.len()
        invariant
            ps == pairs@,
            ps.len() <= CONTACT_LIMIT,
            j <= ps.len(),
            forall|t: int| 0 <= t < ps.len() ==> pair_ok(ds, #[trigger] ps[t]),
            droplets@ == grown(ds, ps.take(j as int)),
            commands@ == reshapes(ds, ps.take(j as int)),
            droplets@.len() == ds.len(),
            forall|i: int| 0 <= i < ds.len() ==> (#[trigger] droplets@[i]).deleted == ds[i].deleted,
            forall|i: int|
                0 <= i < ds.len() && !(#[trigger] droplets@[i]).deleted ==> 0 < droplets@[i].size
                    <= SIZE_LIMIT + j * GROWTH_LIMIT,
            sizes_ready(ds),
        decreases ps.len() - j,
    {
        let (k, x) = pairs[j];
        assert(pair_ok(ds, ps[j as int]));
        let gr = absorbed_growth(droplets[x].size);
        let mut d = droplets[k];
        d.size = d.size + gr;
        d.radius = d.size;
        d.collided = true;
        droplets.set(k, d);
        proof {
            let next = ps.take(j as int + 1);
            assert(next.drop_last() =~= ps.take(j as int));
            assert(next.last() == ps[j as int]);
            assert(droplets@ == grown(ds, next));
        }
        commands.push(IndexCommand::Reshape(k, d.size));
        j = j + 1;
    }
    assert(ps.take(j as int) =~= ps);
    let ghost g = droplets@;
    proof {
        lemma_grown_frame(ds, ps);
        assert forall|t: int| 0 <= t < ps.len() implies pair_ok(g, #[trigger] ps[t]) by {
            assert(pair_ok(ds, ps[t]));
        }
    }
    let ghost reshaped = commands@;
    let mut j: usize = 0;
    while j < pairs.len()
        invariant
            ps == pairs@,
            j <= ps.len(),
            droplets@ == tombstoned(g, ps.take(j as int)),
            commands@ == reshaped + removals(g, ps.take(j as int)),
            forall|t: int| 0 <= t < ps.len() ==> pair_ok(g, #[trigger] ps[t]),
            droplets@.len() == g.len(),
        decreases ps.len() - j,
    {
        let x = pairs[j].1;
        assert(pair_ok(g, ps[j as int]));
        let ghost next = ps.take(j as int + 1);
        proof {
            assert(next.drop_last() =~= ps.take(j as int));
            assert(next.last() == ps[j as int]);
        }
        if !droplets[x].deleted {
            let mut d = droplets[x];
            d.deleted = true;
            droplets.set(x, d);
            commands.push(IndexCommand::Remove(x));
            assert(commands@ =~= reshaped + removals(g, next));
        } else {
            assert(commands@ =~= reshaped + removals(g, next));
        }
        j = j + 1;
    }
    assert(ps.take(j as int) =~= ps);
    Ok(commands)
}

proof fn lemma_merge_pairs_len(ds: Seq<Droplet>, cs: Seq<Contact>)
    ensures
        merge_pairs(ds, cs).len() <= cs.len(),
    decreases cs.len(),
{
    if cs.len() > 0 {
        lemma_merge_pairs_len(ds, cs.drop_last());
    }
}

proof fn lemma_pairs_ok(ds: Seq<Droplet>, cs: Seq<Contact>)
    requires
        first_problem(ds, cs) is None,
    ensures
        forall|j: int|
            0 <= j < merge_pairs(ds, cs).len() ==> pair_ok(ds, #[trigger] merge_pairs(ds, cs)[j]),
    decreases cs.len(),
{
    if cs.len() > 0 {
        let rest = merge_pairs(ds, cs.drop_last());
        lemma_pairs_ok(ds, cs.drop_last());
        let all = merge_pairs(ds, cs);
        match cs.last() {
            Contact::Started(a, b) => {
                assert(all == rest.push(merge_pair_of(ds, a, b)));
                assert forall|j: int| 0 <= j < all.len() implies pair_ok(ds, #[trigger] all[j]) by {
                    if j < rest.len() {
                        assert(all[j] == rest[j]);
                    }
                }
            },
            Contact::Ended(_, _) => {},
        }
    }
}

/// The survivor of a contact is the droplet with the larger collision radius;
/// on equal radii, the one with the greater `y`.
pub proof fn lemma_winner_rule(ds: Seq<Droplet>, a: usize, b: usize)
    requires
        a < ds.len(),
        b < ds.len(),
    ensures
        ds[a as int].radius > ds[b as int].radius ==> merge_pair_of(ds, a, b) == (a, b),
        ds[a as int].radius < ds[b as int].radius ==> merge_pair_of(ds, a, b) == (b, a),
        ds[a as int].radius == ds[b as int].radius && ds[a as int].y > ds[b as int].y
            ==> merge_pair_of(ds, a, b) == (a, b),
        ds[a as int].radius == ds[b as int].radius && ds[a as int].y < ds[b as int].y
            ==> merge_pair_of(ds, a, b) == (b, a),
{
}

/// A merge pass that succeeds leaves every already deleted droplet as it was,
/// and no already deleted droplet is kept or deleted by any of its pairs.
pub proof fn lemma_merge_leaves_deleted(ds: Seq<Droplet>, cs: Seq<Contact>)
    requires
        first_problem(ds, cs) is None,
    ensures
        forall|i: int, j: int|
            #![trigger ds[i], merge_pairs(ds, cs)[j]]
            0 <= i < ds.len() && ds[i].deleted && 0 <= j < merge_pairs(ds, cs).len() ==> (
            merge_pairs(ds, cs)[j]).0 != i && merge_pairs(ds, cs)[j].1 != i,
        forall|i: int|
            0 <= i < ds.len() && ds[i].deleted ==> #[trigger] tombstoned(
                grown(ds, merge_pairs(ds, cs)),
                merge_pairs(ds, cs),
            )[i] == ds[i],
{
    let ps = merge_pairs(ds, cs);
    lemma_pairs_ok(ds, cs);
    lemma_grown_frame(ds, ps);
    let g = grown(ds, ps);
    assert forall|t: int| 0 <= t < ps.len() implies pair_ok(g, #[trigger] ps[t]) by {
        assert(pair_ok(ds, ps[t]));
    }
    lemma_tombstoned_frame(g, ps);
}

/// A single started contact between two distinct live droplets yields exactly
/// one merge: the survivor grows once and is kept, its partner alone is
/// deleted, no other droplet changes, and the index gets one reshape and one
/// removal.
pub proof fn lemma_single_contact(ds: Seq<Droplet>, a: usize, b: usize)
    requires
        sizes_ready(ds),
        contact_problem(ds, Contact::Started(a, b)) is None,
    ensures
        ({
            let cs = seq![Contact::Started(a, b)];
            let (k, x) = merge_pair_of(ds, a, b);
            let ps = merge_pairs(ds, cs);
            let g = grown(ds, ps);
            let t = tombstoned(g, ps);
            &&& first_problem(ds, cs) is None
            &&& ps == seq![(k, x)]
            &&& t.len() == ds.len()
            &&& t[x as int].deleted
            &&& !t[k as int].deleted
            &&& t[k as int].size == ds[k as int].size + growth(ds[x as int].size as int)
            &&& forall|i: int| 0 <= i < ds.len() && i != k && i != x ==> #[trigger] t[i] == ds[i]
            &&& reshapes(ds, ps) + removals(g, ps) == seq![
                IndexCommand::Reshape(k, t[k as int].size),
                IndexCommand::Remove(x),
            ]
        }),
{
    let cs = seq![Contact::Started(a, b)];
    let (k, x) = merge_pair_of(ds, a, b);
    assert(cs.drop_last() =~= Seq::<Contact>::empty());
    assert(cs.last() == Contact::Started(a, b));
    assert(merge_pairs(ds, cs.drop_last()) == Seq::<(usize, usize)>::empty());
    assert(first_problem(ds, cs.drop_last()) is None);
    let ps = merge_pairs(ds, cs);
    assert(ps =~= seq![(k, x)]);
    assert(ps.drop_last() =~= Seq::<(usize, usize)>::empty());
    assert(grown(ds, ps.drop_last()) == ds);
    assert(ps.last() == (k, x));
    let g = grown(ds, ps);
    assert(g == absorb(ds, (k, x)));
    let t = tombstoned(g, ps);
    assert(tombstoned(g, ps.drop_last()) == g);
    assert(reshapes(ds, ps.drop_last()) == Seq::<IndexCommand>::empty());
    assert(removals(g, ps.drop_last()) == Seq::<IndexCommand>::empty());
    assert(!ds[x as int].deleted && !ds[k as int].deleted);
    lemma_growth_bound(ds[x as int].size as int);
    assert(first_problem(ds, cs) is None);
    assert(t.len() == ds.len());
    assert(t[x as int].deleted);
    assert(!t[k as int].deleted);
    assert(t[k as int].size == ds[k as int].size + growth(ds[x as int].size as int));
    assert(forall|i: int| 0 <= i < ds.len() && i != k && i != x ==> #[trigger] t[i] == ds[i]);
    assert(reshapes(ds, ps) + removals(g, ps) =~= seq![
        IndexCommand::Reshape(k, t[k as int].size),
        IndexCommand::Remove(x),
    ]);
}

} // verus!
