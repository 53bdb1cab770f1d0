use vstd::prelude::*;

use crate::principal::{lemma_principal_order, principal_lt, Principal};
use crate::text::{check_name_bytes, copy_text, valid_name_bytes};
use crate::tickets::text_view;

verus! {

/// Longest avatar name accepted, in UTF-8 bytes.
pub const MAX_AVATAR_NAME: usize = 32;

/// A principal's avatar.
#[derive(Clone, Debug)]
pub struct Avatar {
    pub name: String,
    pub owner: Principal,
    pub created_at: u64,
    pub metadata: Option<String>,
}

/// What an avatar holds, as plain values.
pub struct AvatarView {
    pub name: Seq<char>,
    pub owner: Seq<u8>,
    pub created_at: u64,
    pub metadata: Option<Seq<char>>,
}

impl View for Avatar {
    type V = AvatarView;

    open spec fn view(&self) -> AvatarView {
        AvatarView {
            name: self.name@,
            owner: self.owner@,
            created_at: self.created_at,
            metadata: text_view(self.metadata),
        }
    }
}

impl Avatar {
    /// A copy of this avatar.
    pub fn duplicate(&self) -> (r: Avatar)
        ensures
            r@ == self@,
    {
        Avatar {
            name: self.name.clone(),
            owner: self.owner.duplicate(),
            created_at: self.created_at,
            metadata: copy_text(&self.metadata),
        }
    }
}

/// What a caller asks to register.
#[derive(Clone, Debug)]
pub struct RegisterAvatarRequest {
    pub name: String,
    pub metadata: Option<String>,
}

#[derive(PartialEq, Eq, Structural, Debug, Clone, Copy)]
pub enum AvatarError {
    Unauthorized,
    AvatarAlreadyExists,
    InvalidName,
    NotFound,
}

/// Whether `s` is accepted as an avatar name: not blank, at most 32 bytes in UTF-8.
pub open spec fn valid_avatar_name(s: Seq<char>) -> bool {
    valid_name_bytes(s, MAX_AVATAR_NAME as nat)
}

pub open spec fn avatar_views(avatars: Seq<Avatar>) -> Seq<AvatarView> {
    avatars.map_values(|a: Avatar| a@)
}

/// The avatars of `s` in ascending `principal_lt` order of their owners.
pub open spec fn sorted_by_owner(s: Seq<AvatarView>) -> bool {
    forall|i: int, j: int| 0 <= i < j < s.len() ==> principal_lt(#[trigger] s[i].owner, #[trigger] s[j].owner)
}

/// No two avatars in `s` belong to the same principal.
pub open spec fn unique_owners(s: Seq<AvatarView>) -> bool {
    forall|i: int, j: int| 0 <= i < s.len() && 0 <= j < s.len() && i != j
        ==> #[trigger] s[i].owner != #[trigger] s[j].owner
}

/// The avatars, at most one per principal, in ascending order of principal.
pub struct AvatarRegistry {
    avatars: Vec<Avatar>,
}

impl AvatarRegistry {
    /// The registered avatars, in ascending order of principal.
    pub closed spec fn entries(&self) -> Seq<AvatarView> {
        self.avatars@.map_values(|a: Avatar| a@)
    }

    closed spec fn slot(&self, p: Seq<u8>) -> int {
        if exists|k: int| 0 <= k < self.avatars@.len() && #[trigger] self.avatars@[k].owner@ == p {
            choose|k: int| 0 <= k < self.avatars@.len() && #[trigger] self.avatars@[k].owner@ == p
        } else {
            -1
        }
    }

    /// The avatar of `p`, if `p` registered one.
    pub closed spec fn lookup(&self, p: Seq<u8>) -> Option<AvatarView> {
        let k = self.slot(p);
        if 0 <= k { Some(self.avatars@[k]@) } else { None }
    }

    /// The avatars are held in ascending order of principal, so no principal
    /// has two.
    pub closed spec fn wf(&self) -> bool {
        &&& forall|i: int, j: int| 0 <= i < j < self.avatars@.len()
            ==> principal_lt(#[trigger] self.avatars@[i].owner@, #[trigger] self.avatars@[j].owner@)
        &&& self.owners_unique()
    }

    closed spec fn owners_unique(&self) -> bool {
        forall|i: int, j: int|
            0 <= i < self.avatars@.len() && 0 <= j < self.avatars@.len() && i != j
                ==> #[trigger] self.avatars@[i].owner@ != #[trigger] self.avatars@[j].owner@
    }

    proof fn lemma_slot(&self, k: int)
        requires
            self.wf(),
            0 <= k < self.avatars@.len(),
        ensures
            self.slot(self.avatars@[k].owner@) == k,
            self.lookup(self.avatars@[k].owner@) == Some(self.avatars@[k]@),
    {
        let p = self.avatars@[k].owner@;
        assert(exists|j: int| 0 <= j < self.avatars@.len() && #[trigger] self.avatars@[j].owner@ == p);
    }

    fn find_slot(&self, p: &Principal) -> (r: Option<usize>)
        requires
            self.wf(),
        ensures
            match r {
                Some(k) => k < self.avatars@.len() && self.avatars@[k as int].owner@ == p@
                    && self.lookup(p@) == Some(self.avatars@[k as int]@),
                None => self.lookup(p@) is None,
            },
    {
        let mut k: usize = 0;
        while k < self.avatars.len()
            invariant
                self.wf(),
                0 <= k <= self.avatars@.len(),
                forall|j: int| 0 <= j < k ==> #[trigger] self.avatars@[j].owner@ != p@,
            decreases self.avatars@.len() - k,
        {
            if self.avatars[k].owner.same_as(p) {
                proof {
                    self.lemma_slot(k as int);
                }
                return Some(k);
            }
            k = k + 1;
        }
        None
    }

    /// An empty registry.
    pub fn new() -> (r: AvatarRegistry)
        ensures
            r.wf(),
            r.entries() == Seq::<AvatarView>::empty(),
            forall|p: Seq<u8>| #[trigger] r.lookup(p) is None,
    {
        let r = AvatarRegistry { avatars: Vec::new() };
        assert(r.entries() =~= Seq::<AvatarView>::empty());
        r
    }

    /// Where `p` stands: `Ok` with its slot, or `Err` with the place where
    /// it would go to keep the order.
    fn locate(&self, p: &Principal) -> (r: Result<usize, usize>)
        requires
            self.wf(),
        ensures
            match r {
                Ok(k) => k < self.avatars@.len() && self.avatars@[k as int].owner@ == p@
                    && self.lookup(p@) == Some(self.avatars@[k as int]@),
                Err(k) => k <= self.avatars@.len() && self.lookup(p@) is None
                    && (forall|j: int| 0 <= j < k ==> principal_lt(#[trigger] self.avatars@[j].owner@, p@))
                    && (forall|j: int| k <= j < self.avatars@.len() ==> principal_lt(p@, #[trigger] self.avatars@[j].owner@)),
            },
    {
        let n = self.avatars.len();
        let mut i: usize = 0;
        while i < n
            invariant
                n == self.avatars@.len(),
                0 <= i <= n,
                forall|j: int| 0 <= j < i ==> principal_lt(#[trigger] self.avatars@[j].owner@, p@),
            ensures
                0 <= i <= n,
                forall|j: int| 0 <= j < i ==> principal_lt(#[trigger] self.avatars@[j].owner@, p@),
                i < n ==> !principal_lt(self.avatars@[i as int].owner@, p@),
            decreases n - i,
        {
            if !self.avatars[i].owner.precedes(p) {
                break;
            }
            i = i + 1;
        }
        if i < n && self.avatars[i].owner.same_as(p) {
            proof {
                self.lemma_slot(i as int);
            }
            return Ok(i);
        }
        proof {
            if i < n {
                let q = self.avatars@[i as int].owner@;
                lemma_principal_order(q, p@, q);
                assert forall|j: int| i <= j < n implies principal_lt(p@, #[trigger] self.avatars@[j].owner@) by {
                    if j > i {
                        lemma_principal_order(p@, q, self.avatars@[j].owner@);
                    }
                }
            }
            assert forall|k: int| 0 <= k < n implies #[trigger] self.avatars@[k].owner@ != p@ by {
                lemma_principal_order(p@, p@, p@);
                if k < i {
                    assert(principal_lt(self.avatars@[k].owner@, p@));
                } else {
                    assert(principal_lt(p@, self.avatars@[k].owner@));
                }
            }
        }
        Err(i)
    }

    /// Puts `avatar` at `k`, the place that keeps the order.
    fn insert_at(&mut self, k: usize, avatar: Avatar)
        requires
            old(self).wf(),
            k <= old(self).avatars@.len(),
            forall|j: int| 0 <= j < k ==> principal_lt(#[trigger] old(self).avatars@[j].owner@, avatar.owner@),
            forall|j: int| k <= j < old(self).avatars@.len() ==> principal_lt(avatar.owner@, #[trigger] old(self).avatars@[j].owner@),
        ensures
            final(self).wf(),
            final(self).entries() == old(self).entries().insert(k as int, avatar@),
            final(self).lookup(avatar.owner@) == Some(avatar@),
            forall|p: Seq<u8>| p != avatar.owner@ ==> #[trigger] final(self).lookup(p) == old(self).lookup(p),
    {
        let ghost o = *old(self);
        let ghost owner = avatar.owner@;
        let ghost item = avatar;
        self.avatars.insert(k, avatar);
        proof {
            let n = o.avatars@.len() as int;
            let k = k as int;
            assert(self.avatars@ == o.avatars@.insert(k, item));
            assert forall|i: int, j: int| 0 <= i < j < self.avatars@.len()
                implies principal_lt(#[trigger] self.avatars@[i].owner@, #[trigger] self.avatars@[j].owner@) by {
                if j < k {
                    assert(self.avatars@[i] == o.avatars@[i] && self.avatars@[j] == o.avatars@[j]);
                } else if j == k {
                    assert(self.avatars@[i] == o.avatars@[i]);
                } else if i < k {
                    assert(self.avatars@[i] == o.avatars@[i] && self.avatars@[j] == o.avatars@[j - 1]);
                    lemma_principal_order(o.avatars@[i].owner@, owner, o.avatars@[j - 1].owner@);
                } else if i == k {
                    assert(self.avatars@[j] == o.avatars@[j - 1]);
                } else {
                    assert(self.avatars@[i] == o.avatars@[i - 1] && self.avatars@[j] == o.avatars@[j - 1]);
                }
            }
            assert forall|i: int, j: int|
                0 <= i < self.avatars@.len() && 0 <= j < self.avatars@.len() && i != j
                    implies #[trigger] self.avatars@[i].owner@ != #[trigger] self.avatars@[j].owner@ by {
                let (x, y) = if i < j { (i, j) } else { (j, i) };
                assert(principal_lt(self.avatars@[x].owner@, self.avatars@[y].owner@));
                lemma_principal_order(self.avatars@[x].owner@, self.avatars@[x].owner@, self.avatars@[x].owner@);
            }
            assert(self.entries() =~= o.entries().insert(k, item@));
            self.lemma_slot(k);
            assert forall|p: Seq<u8>| p != owner implies #[trigger] self.lookup(p) == o.lookup(p) by {
                if exists|j: int| 0 <= j < n && #[trigger] o.avatars@[j].owner@ == p {
                    let j = choose|j: int| 0 <= j < n && #[trigger] o.avatars@[j].owner@ == p;
                    let j2 = if j < k { j } else { j + 1 };
                    assert(self.avatars@[j2] == o.avatars@[j]);
                    self.lemma_slot(j2);
                    o.lemma_slot(j);
                } else {
                    assert forall|m: int| 0 <= m < self.avatars@.len() implies #[trigger] self.avatars@[m].owner@ != p by {
                        if m < k {
                            assert(self.avatars@[m] == o.avatars@[m]);
                        } else if m > k {
                            assert(self.avatars@[m] == o.avatars@[m - 1]);
                        }
                    }
                }
            }
        }
    }

    /// Registers an avatar for `caller`, stamped `created_at`: the name is
    /// checked first, then that `caller` has none yet.
    pub fn register_avatar(&mut self, caller: &Principal, request: RegisterAvatarRequest, created_at: u64) -> (r: Result<Avatar, AvatarError>)
        requires
            old(self).wf(),
        ensures
            final(self).wf(),
            !valid_avatar_name(request.name@) ==> r == Err::<Avatar, AvatarError>(AvatarError::InvalidName)
                && *final(self) == *old(self),
            valid_avatar_name(request.name@) && old(self).lookup(caller@) is Some
                ==> r == Err::<Avatar, AvatarError>(AvatarError::AvatarAlreadyExists) && *final(self) == *old(self),
            valid_avatar_name(request.name@) && old(self).lookup(caller@) is None ==> r is Ok && ({
                let a = r->Ok_0;
                &&& a@ == (AvatarView {
                    name: request.name@,
                    owner: caller@,
                    created_at,
                    metadata: text_view(request.metadata),
                })
                &&& final(self).entries().len() == old(self).entries().len() + 1
                &&& final(self).lookup(caller@) == Some(a@)
                &&& forall|p: Seq<u8>| p != caller@ ==> #[trigger] final(self).lookup(p) == old(self).lookup(p)
            }),
    {
        if !check_name_bytes(request.name.as_str(), MAX_AVATAR_NAME) {
            return Err(AvatarError::InvalidName);
        }
        match self.locate(caller) {
            Ok(_) => Err(AvatarError::AvatarAlreadyExists),
            Err(k) => {
                let avatar = Avatar {
                    name: request.name,
                    owner: caller.duplicate(),
                    created_at,
                    metadata: request.metadata,
                };
                let out = avatar.duplicate();
                self.insert_at(k, avatar);
                Ok(out)
            },
        }
    }

    /// The avatar of `principal`, or `NotFound`.
    pub fn get_avatar(&self, principal: &Principal) -> (r: Result<Avatar, AvatarError>)
        requires
            self.wf(),
        ensures
            self.lookup(principal@) is Some ==> r is Ok && r->Ok_0@ == self.lookup(principal@)->Some_0,
            self.lookup(principal@) is None ==> r == Err::<Avatar, AvatarError>(AvatarError::NotFound),
    {
        match self.find_slot(principal) {
            Some(k) => Ok(self.avatars[k].duplicate()),
            None => Err(AvatarError::NotFound),
        }
    }

    /// The avatar of `caller`, or `NotFound`.
    pub fn get_my_avatar(&self, caller: &Principal) -> (r: Result<Avatar, AvatarError>)
        requires
            self.wf(),
        ensures
            self.lookup(caller@) is Some ==> r is Ok && r->Ok_0@ == self.lookup(caller@)->Some_0,
            self.lookup(caller@) is None ==> r == Err::<Avatar, AvatarError>(AvatarError::NotFound),
    {
        self.get_avatar(caller)
    }

    /// Sets the metadata of `caller`'s avatar, or `NotFound`.
    pub fn update_avatar_metadata(&mut self, caller: &Principal, metadata: String) -> (r: Result<Avatar, AvatarError>)
        requires
            old(self).wf(),
        ensures
            final(self).wf(),
            old(self).lookup(caller@) is None ==> r == Err::<Avatar, AvatarError>(AvatarError::NotFound)
                && *final(self) == *old(self),
            old(self).lookup(caller@) is Some ==> r is Ok && ({
                let a = r->Ok_0;
                &&& a@ == (AvatarView { metadata: Some(metadata@), ..old(self).lookup(caller@)->Some_0 })
                &&& final(self).lookup(caller@) == Some(a@)
                &&& forall|p: Seq<u8>| p != caller@ ==> #[trigger] final(self).lookup(p) == old(self).lookup(p)
            }),
    {
        match self.find_slot(caller) {
            None => Err(AvatarError::NotFound),
            Some(k) => {
                let mut avatar = self.avatars[k].duplicate();
                avatar.metadata = Some(metadata);
                let out = avatar.duplicate();
                self.avatars[k] = avatar;
                proof {
                    let o = old(self);
                    assert(self.avatars@ == o.avatars@.update(k as int, avatar));
                    assert forall|i: int, j: int|
                        0 <= i < self.avatars@.len() && 0 <= j < self.avatars@.len() && i != j
                            implies #[trigger] self.avatars@[i].owner@ != #[trigger] self.avatars@[j].owner@ by {
                        assert(o.avatars@[i].owner@ == self.avatars@[i].owner@);
                        assert(o.avatars@[j].owner@ == self.avatars@[j].owner@);
                    }
                    self.lemma_slot(k as int);
                    assert forall|p: Seq<u8>| p != caller@ implies #[trigger] self.lookup(p) == o.lookup(p) by {
                        if exists|j: int| 0 <= j < o.avatars@.len() && #[trigger] o.avatars@[j].owner@ == p {
                            let j = choose|j: int| 0 <= j < o.avatars@.len() && #[trigger] o.avatars@[j].owner@ == p;
                            assert(self.avatars@[j] == o.avatars@[j]);
                            self.lemma_slot(j);
                            o.lemma_slot(j);
                        } else {
                            assert forall|k2: int| 0 <= k2 < self.avatars@.len() implies #[trigger] self.avatars@[k2].owner@ != p by {
                                assert(o.avatars@[k2].owner@ == self.avatars@[k2].owner@);
                            }
                        }
                    }
                }
                Ok(out)
            },
        }
    }

    /// Rebuilds a registry from its avatars, given in any order; refused
    /// (`None`) where two avatars share an owner.
    pub fn from_avatars(avatars: Vec<Avatar>) -> (r: Option<AvatarRegistry>)
        ensures
            r is Some <==> unique_owners(avatar_views(avatars@)),
            r is Some ==> ({
                let reg = r->Some_0;
                &&& reg.wf()
                &&& reg.entries().len() == avatars@.len()
                &&& forall|i: int| 0 <= i < avatars@.len()
                    ==> reg.lookup(#[trigger] avatars@[i].owner@) == Some(avatars@[i]@)
            }),
    {
        let ghost vs = avatar_views(avatars@);
        let mut reg = AvatarRegistry::new();
        let n = avatars.len();
        let mut i: usize = 0;
        while i < n
            invariant
                n == avatars@.len(),
                vs == avatar_views(avatars@),
                0 <= i <= n,
                reg.wf(),
                reg.entries().len() == i,
                unique_owners(vs.subrange(0, i as int)),
                forall|j: int| 0 <= j < i ==> reg.lookup(#[trigger] vs[j].owner) == Some(vs[j]),
                forall|p: Seq<u8>| #[trigger] reg.lookup(p) is Some
                    ==> exists|j: int| 0 <= j < i && #[trigger] vs[j].owner == p,
            decreases n - i,
        {
            let a = avatars[i].duplicate();
            assert(a@ == vs[i as int]);
            match reg.locate(&a.owner) {
                Ok(_) => {
                    proof {
                        let j = choose|j: int| 0 <= j < i && #[trigger] vs[j].owner == a.owner@;
                        assert(vs[j].owner == vs[i as int].owner);
                    }
                    return None;
                },
                Err(k) => {
                    let ghost before = reg;
                    reg.insert_at(k, a);
                    proof {
                        let sub = vs.subrange(0, i + 1);
                        assert forall|x: int, y: int| 0 <= x < sub.len() && 0 <= y < sub.len() && x != y
                            implies #[trigger] sub[x].owner != #[trigger] sub[y].owner by {
                            if x == i || y == i {
                                let other = if x == i { y } else { x };
                                if vs[other].owner == vs[i as int].owner {
                                    assert(before.lookup(vs[other].owner) == Some(vs[other]));
                                }
                            } else {
                                assert(vs.subrange(0, i as int)[x] == sub[x]);
                                assert(vs.subrange(0, i as int)[y] == sub[y]);
                            }
                        }
                        assert forall|j: int| 0 <= j < i + 1 implies reg.lookup(#[trigger] vs[j].owner) == Some(vs[j]) by {
                            if j < i && vs[j].owner == vs[i as int].owner {
                                assert(before.lookup(vs[j].owner) == Some(vs[j]));
                            }
                        }
                        assert forall|p: Seq<u8>| #[trigger] reg.lookup(p) is Some
                            implies exists|j: int| 0 <= j < i + 1 && #[trigger] vs[j].owner == p by {
                            if p != vs[i as int].owner {
                                assert(before.lookup(p) is Some);
                                let j = choose|j: int| 0 <= j < i && #[trigger] vs[j].owner == p;
                                assert(vs[j].owner == p);
                            } else {
                                assert(vs[i as int].owner == p);
                            }
                        }
                    }
                },
            }
            i = i + 1;
        }
        assert forall|j: int| 0 <= j < n implies reg.lookup(#[trigger] avatars@[j].owner@) == Some(avatars@[j]@) by {
            assert(vs[j] == avatars@[j]@);
            assert(reg.lookup(vs[j].owner) == Some(vs[j]));
        }
        assert(vs.subrange(0, n as int) =~= vs);
        Some(reg)
    }

    /// The listing follows the lookup: in ascending order of principal, each
    /// avatar the one its owner looks up, and every registered one present.
    pub proof fn lemma_entries_follow_lookup(&self, p: Seq<u8>)
        requires
            self.wf(),
        ensures
            sorted_by_owner(self.entries()),
            forall|i: int| 0 <= i < self.entries().len()
                ==> self.lookup(#[trigger] self.entries()[i].owner) == Some(self.entries()[i]),
            self.lookup(p) is Some ==> exists|i: int| 0 <= i < self.entries().len()
                && #[trigger] self.entries()[i] == self.lookup(p)->Some_0,
    {
        assert forall|i: int| 0 <= i < self.entries().len()
            implies self.lookup(#[trigger] self.entries()[i].owner) == Some(self.entries()[i]) by {
            self.lemma_slot(i);
        }
        if self.lookup(p) is Some {
            let k = self.slot(p);
            assert(self.entries()[k] == self.lookup(p)->Some_0);
        }
    }

    /// Every avatar, in ascending order of principal.
    pub fn list_avatars(&self) -> (r: Vec<Avatar>)
        requires
            self.wf(),
        ensures
            sorted_by_owner(avatar_views(r@)),
            r@.len() == self.entries().len(),
            forall|j: int| 0 <= j < r@.len() ==> #[trigger] r@[j]@ == self.entries()[j],
    {
        let mut r: Vec<Avatar> = Vec::new();
        let mut i: usize = 0;
        while i < self.avatars.len()
            invariant
                0 <= i <= self.avatars@.len(),
                r@.len() == i,
                forall|j: int| 0 <= j < i ==> #[trigger] r@[j]@ == self.entries()[j],
            decreases self.avatars@.len() - i,
        {
            r.push(self.avatars[i].duplicate());
            i = i + 1;
        }
        r
    }
}

} // verus!
