//! Principals as byte strings, and the set of authorized gateways.
use vstd::prelude::*;

verus! {

/// The bytes of the anonymous principal: the single tag byte 4.
pub open spec fn anonymous_principal() -> Seq<u8> {
    seq![4u8]
}

/// `candid::Principal::anonymous()`, read out as its bytes.  The crate's
/// source builds it as one byte, the anonymous tag 4.
#[verifier::external_body]
fn anonymous_principal_bytes() -> (r: Vec<u8>)
    ensures
        r@ == anonymous_principal(),
{
    candid::Principal::anonymous().as_slice().to_vec()
}

/// Whether two byte strings are equal.
pub fn bytes_equal(a: &[u8], b: &[u8]) -> (r: bool)
    ensures
        r == (a@ == b@),
{
    if a.len() != b.len() {
        return false;
    }
    let mut i: usize = 0;
    while i < a.len()
        invariant
            a@.len() == b@.len(),
            i <= a@.len(),
            forall|j: int| 0 <= j < i ==> a@[j] == b@[j],
        decreases a.len() - i,
    {
        if a[i] != b[i] {
            return false;
        }
        i = i + 1;
    }
    assert(a@ =~= b@);
    true
}

/// Whether the principal is the anonymous one.
pub fn is_anonymous(principal: &[u8]) -> (r: bool)
    ensures
        r == (principal@ == anonymous_principal()),
{
    let anonymous = anonymous_principal_bytes();
    bytes_equal(principal, anonymous.as_slice())
}

/// The principals named by a list, as a set of byte strings.
pub open spec fn principal_set(list: Seq<Vec<u8>>) -> Set<Seq<u8>> {
    list.map_values(|p: Vec<u8>| p@).to_set()
}

/// A set of principals.
pub struct PrincipalSet {
    members: Vec<Vec<u8>>,
}

impl View for PrincipalSet {
    type V = Set<Seq<u8>>;

    closed spec fn view(&self) -> Set<Seq<u8>> {
        principal_set(self.members@)
    }
}

impl PrincipalSet {
    /// The empty set.
    pub fn new() -> (r: Self)
        ensures
            r@ == Set::<Seq<u8>>::empty(),
    {
        let r = PrincipalSet { members: Vec::new() };
        assert(r@ =~= Set::<Seq<u8>>::empty());
        r
    }

    /// Whether the principal is a member.
    pub fn contains(&self, principal: &[u8]) -> (r: bool)
        ensures
            r == self@.contains(principal@),
    {
        let ghost views = self.members@.map_values(|p: Vec<u8>| p@);
        let mut i: usize = 0;
        while i < self.members.len()
            invariant
                views == self.members@.map_values(|p: Vec<u8>| p@),
                i <= self.members@.len(),
                forall|j: int| 0 <= j < i ==> views[j] != principal@,
            decreases self.members.len() - i,
        {
            if bytes_equal(self.members[i].as_slice(), principal) {
                assert(views[i as int] == principal@);
                return true;
            }
            i = i + 1;
        }
        assert(!views.contains(principal@));
        false
    }

    /// Adds the principal.
    pub fn insert(&mut self, principal: Vec<u8>)
        ensures
            final(self)@ == old(self)@.insert(principal@),
    {
        if !self.contains(principal.as_slice()) {
            let ghost before = self.members@;
            let ghost p = principal@;
            self.members.push(principal);
            let ghost vb = before.map_values(|q: Vec<u8>| q@);
            let ghost va = self.members@.map_values(|q: Vec<u8>| q@);
            assert(va =~= vb.push(p));
            assert forall|x: Seq<u8>| #[trigger] va.contains(x) <==> vb.contains(x) || x == p by {
                if va.contains(x) {
                    let j = choose|j: int| 0 <= j < va.len() && va[j] == x;
                    if j < vb.len() {
                        assert(vb[j] == x);
                    }
                }
                if vb.contains(x) {
                    let j = choose|j: int| 0 <= j < vb.len() && vb[j] == x;
                    assert(va[j] == x);
                }
                if x == p {
                    assert(va[vb.len() as int] == x);
                }
            }
            assert(self@ =~= old(self)@.insert(p));
        } else {
            assert(self@ =~= old(self)@.insert(principal@));
        }
    }

    /// The members, as a list.
    pub fn to_vec(&self) -> (r: Vec<Vec<u8>>)
        ensures
            principal_set(r@) == self@,
    {
        let mut out: Vec<Vec<u8>> = Vec::new();
        let mut i: usize = 0;
        while i < self.members.len()
            invariant
                i <= self.members@.len(),
                out@.map_values(|p: Vec<u8>| p@) == self.members@.take(i as int).map_values(
                    |p: Vec<u8>| p@,
                ),
            decreases self.members.len() - i,
        {
            let p = vstd::slice::slice_to_vec(self.members[i].as_slice());
            let ghost before = out@;
            out.push(p);
            assert(out@.map_values(|q: Vec<u8>| q@) =~= self.members@.take(i + 1).map_values(
                |q: Vec<u8>| q@,
            )) by {
                assert(p@ == self.members@[i as int]@);
                assert(out@ =~= before.push(p));
                assert(out@.map_values(|q: Vec<u8>| q@) =~= before.map_values(|q: Vec<u8>| q@).push(
                    p@,
                ));
                assert(self.members@.take(i + 1) =~= self.members@.take(i as int).push(
                    self.members@[i as int],
                ));
                assert(self.members@.take(i + 1).map_values(|q: Vec<u8>| q@)
                    =~= self.members@.take(i as int).map_values(|q: Vec<u8>| q@).push(
                    self.members@[i as int]@,
                ));
            }
            i = i + 1;
        }
        assert(self.members@.take(self.members@.len() as int) =~= self.members@);
        out
    }

    /// Makes the set exactly the principals of the list.
    pub fn replace_all(&mut self, list: Vec<Vec<u8>>)
        ensures
            final(self)@ == principal_set(list@),
    {
        self.members.clear();
        assert(self@ =~= Set::<Seq<u8>>::empty());
        let ghost all = list@;
        let mut rest = list;
        let ghost n = all.len();
        // Take elements from the back; the order of the set does not matter.
        while rest.len() > 0
            invariant
                all.len() == n,
                rest@ == all.subrange(0, rest@.len() as int),
                rest@.len() <= n,
                self@ == principal_set(all.subrange(rest@.len() as int, n as int)),
            decreases rest.len(),
        {
            let ghost k = rest@.len();
            let p = rest.pop().unwrap();
            proof {
                let tail_before = all.subrange(k as int, n as int);
                let tail_after = all.subrange(k - 1, n as int);
                assert(tail_after =~= seq![p].add(tail_before));
                assert(principal_set(tail_after) =~= principal_set(tail_before).insert(p@)) by {
                    assert(tail_after.map_values(|q: Vec<u8>| q@) =~= seq![p@].add(
                        tail_before.map_values(|q: Vec<u8>| q@),
                    ));
                    assert forall|x: Seq<u8>| #[trigger]
                        principal_set(tail_after).contains(x) <==> principal_set(
                            tail_before,
                        ).insert(p@).contains(x) by {
                        let va = tail_after.map_values(|q: Vec<u8>| q@);
                        let vb = tail_before.map_values(|q: Vec<u8>| q@);
                        if va.contains(x) {
                            let j = choose|j: int| 0 <= j < va.len() && va[j] == x;
                            if j > 0 {
                                assert(vb[j - 1] == x);
                            }
                        }
                        if vb.contains(x) {
                            let j = choose|j: int| 0 <= j < vb.len() && vb[j] == x;
                            assert(va[j + 1] == x);
                        }
                        if x == p@ {
                            assert(va[0] == x);
                        }
                    }
                }
                assert(rest@ =~= all.subrange(0, rest@.len() as int));
            }
            self.insert(p);
        }
        assert(all.subrange(0, n as int) =~= all);
    }
}

} // verus!
