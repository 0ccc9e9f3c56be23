use crate::ids::{lemma_nft_id_injective, nft_id, nft_id_text};
use crate::index::{lemma_push_new, lemma_remove_one, AssetIndex};
use crate::payment::{royalty_of, split_payment};
use vstd::prelude::*;

verus! {

/// The price that every asset carries when it is minted.
pub const DEFAULT_PRICE: i128 = 1000000000;

/// A principal: an account that can prove control of itself to the
/// surrounding environment.
#[derive(Clone, Copy, Debug, PartialEq, Eq, Structural)]
pub struct Address(pub u64);

/// The canonical record of one asset.
#[derive(Debug)]
pub struct NFT {
    pub id: String,
    pub name: String,
    pub description: String,
    pub image_url: String,
    pub creator: Address,
    pub owner: Address,
    pub royalty_percentage: u32,
    pub price: i128,
    pub created_at: u64,
}

impl NFT {
    /// A copy of this record, field by field.
    pub fn copy(&self) -> (r: NFT)
        ensures
            r == *self,
    {
        NFT {
            id: self.id.clone(),
            name: self.name.clone(),
            description: self.description.clone(),
            image_url: self.image_url.clone(),
            creator: self.creator,
            owner: self.owner,
            royalty_percentage: self.royalty_percentage,
            price: self.price,
            created_at: self.created_at,
        }
    }
}

/// Why an operation was refused. A refused operation changes nothing.
#[derive(Clone, Copy, Debug, PartialEq, Eq, Structural)]
pub enum Error {
    AlreadyInitialized,
    NotFound,
    InvalidRoyalty,
    InsufficientPayment,
    Unauthorized,
}

/// One movement of value that the environment must carry out.
#[derive(Clone, Copy, Debug, PartialEq, Eq, Structural)]
pub struct Payment {
    pub from: Address,
    pub to: Address,
    pub amount: i128,
}

/// The movements of value for a sale of `nft` to `buyer` for `amount`: the
/// seller's share to the current owner, then the royalty to the creator when
/// it is positive. Owner and creator may be the same principal; the two legs
/// are kept apart even then.
pub open spec fn payment_legs(nft: NFT, buyer: Address, amount: int) -> Seq<Payment> {
    let royalty = royalty_of(amount, nft.royalty_percentage as int);
    let seller_leg = Payment { from: buyer, to: nft.owner, amount: (amount - royalty) as i128 };
    if royalty > 0 {
        seq![seller_leg, Payment { from: buyer, to: nft.creator, amount: royalty as i128 }]
    } else {
        seq![seller_leg]
    }
}

/// `i` is the first position in `assets` whose identifier is `id`.
pub open spec fn is_first_match(assets: Seq<NFT>, id: Seq<char>, i: int) -> bool {
    &&& 0 <= i < assets.len()
    &&& assets[i].id@ == id
    &&& forall|j: int| 0 <= j < i ==> assets[j].id@ != id
}

/// The position of the asset named `id`, if there is one.
pub open spec fn lookup(assets: Seq<NFT>, id: Seq<char>) -> Option<int> {
    if exists|i: int| is_first_match(assets, id, i) {
        Some(choose|i: int| is_first_match(assets, id, i))
    } else {
        None
    }
}

/// The records at the given positions, in the order of the positions.
pub open spec fn records_at(assets: Seq<NFT>, positions: Seq<u32>) -> Seq<NFT> {
    positions.map_values(|k: u32| assets[k as int])
}

/// `assets` after the one at position `i` has passed to `to`.
pub open spec fn with_owner(assets: Seq<NFT>, i: int, to: Address) -> Seq<NFT> {
    assets.update(i, NFT { owner: to, ..assets[i] })
}

/// `assets` after the one at position `i` has been given price `price`.
pub open spec fn with_price(assets: Seq<NFT>, i: int, price: i128) -> Seq<NFT> {
    assets.update(i, NFT { price: price, ..assets[i] })
}

/// The registry: asset records by sequence number, the admin, and the two
/// indices from principals to the assets they own and have created.
pub struct CelestiumNFT {
    admin: Option<Address>,
    nfts: Vec<NFT>,
    owner_nfts: AssetIndex,
    creator_nfts: AssetIndex,
}

impl CelestiumNFT {
    /// The recorded admin, if the registry has been initialized.
    pub closed spec fn admin_spec(&self) -> Option<Address> {
        self.admin
    }

    /// All minted assets; the one minted as number `n` stands at `n - 1`.
    pub closed spec fn assets(&self) -> Seq<NFT> {
        self.nfts@
    }

    /// Positions of the assets that `p` owns, in the order they came to it.
    pub closed spec fn owned(&self, p: Address) -> Seq<u32> {
        self.owner_nfts.list(p.0)
    }

    /// Positions of the assets that `p` created, in the order of minting.
    pub closed spec fn created(&self, p: Address) -> Seq<u32> {
        self.creator_nfts.list(p.0)
    }

    /// The number of minted assets.
    pub open spec fn counter(&self) -> nat {
        self.assets().len()
    }

    /// Each asset carries the identifier of its number and a royalty of at
    /// most one hundred percent.
    pub open spec fn records_wf(assets: Seq<NFT>) -> bool {
        forall|i: int|
            0 <= i < assets.len() ==> #[trigger] assets[i].id@ == nft_id_text((i + 1) as nat)
                && assets[i].royalty_percentage <= 100
    }

    /// The owner index lists each asset under its owner, once, and nothing
    /// else.
    pub open spec fn owner_index_wf(&self) -> bool {
        &&& forall|p: Address, e: u32|
            #[trigger] self.owned(p).contains(e) ==> (e as int) < self.counter()
                && self.assets()[e as int].owner == p
        &&& forall|i: int|
            0 <= i < self.counter() ==> #[trigger] self.owned(self.assets()[i].owner).contains(
                i as u32,
            )
        &&& forall|p: Address| #[trigger] self.owned(p).no_duplicates()
    }

    /// The creator index lists each asset under its creator, once, and
    /// nothing else.
    pub open spec fn creator_index_wf(&self) -> bool {
        &&& forall|p: Address, e: u32|
            #[trigger] self.created(p).contains(e) ==> (e as int) < self.counter()
                && self.assets()[e as int].creator == p
        &&& forall|i: int|
            0 <= i < self.counter() ==> #[trigger] self.created(self.assets()[i].creator).contains(
                i as u32,
            )
        &&& forall|p: Address| #[trigger] self.created(p).no_duplicates()
    }

    pub open spec fn wf(&self) -> bool {
        &&& self.counter() <= u32::MAX
        &&& Self::records_wf(self.assets())
        &&& self.owner_index_wf()
        &&& self.creator_index_wf()
    }

    /// Both registries hold the same assets and the same index lists.
    pub open spec fn same_assets(&self, other: &Self) -> bool {
        &&& self.assets() == other.assets()
        &&& forall|p: Address| #[trigger] self.owned(p) == other.owned(p)
        &&& forall|p: Address| #[trigger] self.created(p) == other.created(p)
    }

    /// `after` is `before` once the asset at position `i` has passed from its
    /// owner to `to`: the record, and the owner index of both principals.
    pub open spec fn transferred(before: Self, after: Self, i: int, to: Address) -> bool {
        let prev = before.assets()[i].owner;
        &&& after.assets() == with_owner(before.assets(), i, to)
        &&& after.admin_spec() == before.admin_spec()
        &&& forall|p: Address| #[trigger] after.created(p) == before.created(p)
        &&& forall|p: Address| p != prev && p != to ==> #[trigger] after.owned(p) == before.owned(p)
        &&& exists|k: int|
            0 <= k < before.owned(prev).len() && before.owned(prev)[k] == i as u32 && if prev
                == to {
                after.owned(to) == before.owned(prev).remove(k).push(i as u32)
            } else {
                after.owned(prev) == before.owned(prev).remove(k) && after.owned(to)
                    == before.owned(to).push(i as u32)
            }
    }

    proof fn lemma_lookup_first(assets: Seq<NFT>, id: Seq<char>, i: int)
        requires
            is_first_match(assets, id, i),
        ensures
            lookup(assets, id) == Some(i),
    {
        let c = choose|c: int| is_first_match(assets, id, c);
        assert(is_first_match(assets, id, c));
        if c < i {
            assert(assets[c].id@ != id);
        } else if c > i {
            assert(assets[i].id@ != id);
        }
    }

    /// In a well-formed registry the asset minted as number `i + 1` is found
    /// under its identifier.
    proof fn lemma_lookup_minted(assets: Seq<NFT>, i: int)
        requires
            Self::records_wf(assets),
            0 <= i < assets.len(),
        ensures
            lookup(assets, nft_id_text((i + 1) as nat)) == Some(i),
    {
        let id = nft_id_text((i + 1) as nat);
        assert forall|j: int| 0 <= j < i implies assets[j].id@ != id by {
            if assets[j].id@ == id {
                lemma_nft_id_injective((j + 1) as nat, (i + 1) as nat);
            }
        }
        Self::lemma_lookup_first(assets, id, i);
    }

    /// The position of the asset named `nft_id`.
    fn find(&self, nft_id: &String) -> (r: Option<usize>)
        ensures
            match r {
                Some(i) => lookup(self.assets(), nft_id@) == Some(i as int),
                None => lookup(self.assets(), nft_id@) is None,
            },
    {
        let mut i: usize = 0;
        while i < self.nfts.len()
            invariant
                0 <= i <= self.nfts@.len(),
                forall|j: int| 0 <= j < i ==> self.nfts@[j].id@ != nft_id@,
            decreases self.nfts@.len() - i,
        {
            if self.nfts[i].id == *nft_id {
                proof {
                    Self::lemma_lookup_first(self.assets(), nft_id@, i as int);
                }
                return Some(i);
            }
            i = i + 1;
        }
        None
    }

    /// Records `admin` as the registry's admin, once. `caller` is the
    /// principal whose control the environment has established.
    pub fn initialize(&mut self, admin: Address, caller: Address) -> (r: Result<(), Error>)
        requires
            old(self).wf(),
        ensures
            final(self).wf(),
            caller != admin ==> r == Err::<(), Error>(Error::Unauthorized) && *final(self) == *old(
                self,
            ),
            caller == admin && old(self).admin_spec() is Some ==> r == Err::<(), Error>(
                Error::AlreadyInitialized,
            ) && *final(self) == *old(self),
            caller == admin && old(self).admin_spec() is None ==> r == Ok::<(), Error>(())
                && final(self).admin_spec() == Some(admin) && final(self).same_assets(old(self)),
    {
        if caller != admin {
            return Err(Error::Unauthorized);
        }
        if self.admin.is_some() {
            return Err(Error::AlreadyInitialized);
        }
        self.admin = Some(admin);
        assert(forall|p: Address| #[trigger] self.owned(p) == old(self).owned(p));
        assert(forall|p: Address| #[trigger] self.created(p) == old(self).created(p));
        Ok(())
    }

    /// Mints a new asset owned by its creator, at the default price, and
    /// returns its identifier. `caller` is the principal whose control the
    /// environment has established; `created_at` is the current time.
    pub fn mint(
        &mut self,
        name: String,
        description: String,
        image_url: String,
        royalty_percentage: u32,
        creator: Address,
        caller: Address,
        created_at: u64,
    ) -> (r: Result<String, Error>)
        requires
            old(self).wf(),
            old(self).counter() < u32::MAX,
        ensures
            final(self).wf(),
            caller != creator ==> r == Err::<String, Error>(Error::Unauthorized) && *final(self)
                == *old(self),
            caller == creator && royalty_percentage > 100 ==> r == Err::<String, Error>(
                Error::InvalidRoyalty,
            ) && *final(self) == *old(self),
            caller == creator && royalty_percentage <= 100 ==> match r {
                Ok(id) => {
                    let n = old(self).counter();
                    &&& id@ == nft_id_text(n + 1)
                    &&& final(self).counter() == n + 1
                    &&& final(self).assets() == old(self).assets().push(
                        (NFT {
                            id: id,
                            name: name,
                            description: description,
                            image_url: image_url,
                            creator: creator,
                            owner: creator,
                            royalty_percentage: royalty_percentage,
                            price: DEFAULT_PRICE,
                            created_at: created_at,
                        }),
                    )
                    &&& lookup(final(self).assets(), id@) == Some(n as int)
                    &&& final(self).owned(creator) == old(self).owned(creator).push(n as u32)
                    &&& final(self).created(creator) == old(self).created(creator).push(n as u32)
                    &&& forall|p: Address|
                        p != creator ==> #[trigger] final(self).owned(p) == old(self).owned(p)
                    &&& forall|p: Address|
                        p != creator ==> #[trigger] final(self).created(p) == old(self).created(p)
                    &&& final(self).admin_spec() == old(self).admin_spec()
                },
                Err(_) => false,
            },
    {
        if caller != creator {
            return Err(Error::Unauthorized);
        }
        if royalty_percentage > 100 {
            return Err(Error::InvalidRoyalty);
        }
        let n = self.nfts.len() as u32;
        let id = nft_id(n + 1);
        let nft = NFT {
            id: id.clone(),
            name,
            description,
            image_url,
            creator,
            owner: creator,
            royalty_percentage,
            price: DEFAULT_PRICE,
            created_at,
        };
        self.nfts.push(nft);
        self.owner_nfts.add(creator.0, n);
        self.creator_nfts.add(creator.0, n);
        proof {
            let before = *old(self);
            assert(!before.owned(creator).contains(n));
            assert(!before.created(creator).contains(n));
            lemma_push_new(before.owned(creator), n);
            lemma_push_new(before.created(creator), n);
            assert forall|i: int| 0 <= i < n implies #[trigger] self.assets()[i] == before.assets()[i] by {}
            assert(forall|p: Address| p != creator ==> #[trigger] self.owned(p) == before.owned(p));
            assert forall|p: Address, e: u32| #[trigger]
                self.owned(p).contains(e) implies (e as int) < self.counter()
                && self.assets()[e as int].owner == p by {
                if e != n {
                    assert(before.owned(p).contains(e));
                }
            }
            assert forall|i: int| 0 <= i < self.counter() implies #[trigger] self.owned(
                self.assets()[i].owner,
            ).contains(i as u32) by {
                if i < n {
                    assert(before.owned(before.assets()[i].owner).contains(i as u32));
                }
            }
            assert forall|p: Address| #[trigger] self.owned(p).no_duplicates() by {
                if p != creator {
                    assert(before.owned(p).no_duplicates());
                }
            }
            assert(forall|p: Address| p != creator ==> #[trigger] self.created(p) == before.created(p));
            assert forall|p: Address, e: u32| #[trigger]
                self.created(p).contains(e) implies (e as int) < self.counter()
                && self.assets()[e as int].creator == p by {
                if e != n {
                    assert(before.created(p).contains(e));
                }
            }
            assert forall|i: int| 0 <= i < self.counter() implies #[trigger] self.created(
                self.assets()[i].creator,
            ).contains(i as u32) by {
                if i < n {
                    assert(before.created(before.assets()[i].creator).contains(i as u32));
                }
            }
            assert forall|p: Address| #[trigger] self.created(p).no_duplicates() by {
                if p != creator {
                    assert(before.created(p).no_duplicates());
                }
            }
            Self::lemma_lookup_minted(self.assets(), n as int);
        }
        Ok(id)
    }

    /// The movements of value for selling `nft` to `buyer` for `amount`.
    pub fn process_payment(nft: &NFT, buyer: Address, amount: i128) -> (r: Vec<Payment>)
        requires
            nft.royalty_percentage <= 100,
        ensures
            r@ == payment_legs(*nft, buyer, amount as int),
    {
        let (seller_amount, royalty_amount) = split_payment(amount, nft.royalty_percentage);
        let mut legs: Vec<Payment> = Vec::new();
        legs.push(Payment { from: buyer, to: nft.owner, amount: seller_amount });
        if royalty_amount > 0 {
            legs.push(Payment { from: buyer, to: nft.creator, amount: royalty_amount });
        }
        assert(legs@ =~= payment_legs(*nft, buyer, amount as int));
        legs
    }

    /// Sells the asset named `nft_id` to `to` for `amount`: returns the
    /// movements of value that the environment must carry out, and passes
    /// the asset to `to`. `caller` is the principal whose control the
    /// environment has established; it must be the current owner.
    pub fn transfer(&mut self, nft_id: String, to: Address, amount: i128, caller: Address) -> (r:
        Result<Vec<Payment>, Error>)
        requires
            old(self).wf(),
        ensures
            final(self).wf(),
            match lookup(old(self).assets(), nft_id@) {
                None => r == Err::<Vec<Payment>, Error>(Error::NotFound) && *final(self) == *old(
                    self,
                ),
                Some(i) => {
                    let nft = old(self).assets()[i];
                    if caller != nft.owner {
                        r == Err::<Vec<Payment>, Error>(Error::Unauthorized) && *final(self)
                            == *old(self)
                    } else if amount < nft.price {
                        r == Err::<Vec<Payment>, Error>(Error::InsufficientPayment) && *final(self)
                            == *old(self)
                    } else {
                        match r {
                            Ok(legs) => legs@ == payment_legs(nft, to, amount as int)
                                && Self::transferred(*old(self), *final(self), i, to),
                            Err(_) => false,
                        }
                    }
                },
            },
    {
        let i = match self.find(&nft_id) {
            Some(i) => i,
            None => {
                return Err(Error::NotFound);
            },
        };
        let prev = self.nfts[i].owner;
        if caller != prev {
            return Err(Error::Unauthorized);
        }
        if amount < self.nfts[i].price {
            return Err(Error::InsufficientPayment);
        }
        let legs = Self::process_payment(&self.nfts[i], to, amount);
        let ghost before = *self;
        let mut nft = self.nfts[i].copy();
        nft.owner = to;
        self.nfts[i] = nft;
        let ghost mid = *self;
        self.owner_nfts.remove_first(prev.0, i as u32);
        let ghost mid2 = *self;
        self.owner_nfts.add(to.0, i as u32);
        proof {
            let a0 = before.assets();
            let ii = i as int;
            let iu = i as u32;
            let after = *self;
            assert(before == *old(self));
            assert(Self::records_wf(a0));
            assert(mid.assets() =~= with_owner(a0, ii, to));
            assert(after.assets() == mid.assets());
            assert(after.counter() == a0.len());
            assert(forall|p: Address| #[trigger] mid.owned(p) == before.owned(p));
            assert(forall|p: Address| #[trigger] mid.created(p) == before.created(p));
            assert(forall|p: Address| #[trigger] after.created(p) == before.created(p));
            assert(forall|p: Address| p != prev ==> #[trigger] mid2.owned(p) == before.owned(p));
            assert(forall|p: Address| p != to ==> #[trigger] after.owned(p) == mid2.owned(p));
            assert(after.owned(to) == mid2.owned(to).push(iu));
            let l = before.owned(prev);
            assert(l.contains(iu));
            let k = choose|k: int| 0 <= k < l.len() && l[k] == iu;
            let k2 = choose|k2: int|
                0 <= k2 < l.len() && l[k2] == iu && (forall|j: int| 0 <= j < k2 ==> l[j] != iu)
                    && mid2.owned(prev) == l.remove(k2);
            assert(l.no_duplicates());
            assert(k2 == k);
            let rest = l.remove(k);
            lemma_remove_one(l, k, iu);
            if prev == to {
                lemma_push_new(rest, iu);
            } else {
                assert(!before.owned(to).contains(iu));
                lemma_push_new(before.owned(to), iu);
            }
            assert forall|j: int| 0 <= j < a0.len() && j != ii implies #[trigger] after.assets()[j]
                == a0[j] by {}
            assert forall|p: Address, e: u32| #[trigger]
                after.owned(p).contains(e) && e != iu implies before.owned(p).contains(e) by {
                if p == to && prev != to {
                    assert(before.owned(to).push(iu).contains(e));
                } else if p == to {
                    assert(rest.push(iu).contains(e));
                }
            }
            assert forall|p: Address, e: u32| #[trigger]
                after.owned(p).contains(e) implies (e as int) < after.counter()
                && after.assets()[e as int].owner == p by {
                if e != iu {
                    assert(before.owned(p).contains(e));
                } else if p != to {
                    assert(before.owned(p).contains(e));
                }
            }
            assert forall|j: int| 0 <= j < after.counter() implies #[trigger] after.owned(
                after.assets()[j].owner,
            ).contains(j as u32) by {
                if j != ii {
                    let o = a0[j].owner;
                    assert(before.owned(o).contains(j as u32));
                    if o == to && prev != to {
                        assert(before.owned(to).push(iu).contains(j as u32));
                    } else if o == to {
                        assert(rest.contains(j as u32));
                        assert(rest.push(iu).contains(j as u32));
                    } else if o == prev {
                        assert(rest.contains(j as u32));
                    }
                } else {
                    assert(after.owned(to).contains(iu));
                }
            }
            assert forall|p: Address| #[trigger] after.owned(p).no_duplicates() by {
                if p != prev && p != to {
                    assert(before.owned(p).no_duplicates());
                }
            }
            assert forall|j: int| 0 <= j < after.counter() implies #[trigger] after.assets()[j].id@
                == nft_id_text((j + 1) as nat) && after.assets()[j].royalty_percentage <= 100 by {
                assert(0 <= j < a0.len());
                assert(Self::records_wf(a0));
                assert(a0[j].id@ == nft_id_text((j + 1) as nat));
                if j == ii {
                    assert(after.assets()[j] == (NFT { owner: to, ..a0[j] }));
                } else {
                    assert(after.assets()[j] == a0[j]);
                }
            }
            assert(Self::records_wf(after.assets()));
            assert(after.owner_index_wf());
            assert forall|p: Address, e: u32| #[trigger]
                after.created(p).contains(e) implies (e as int) < after.counter()
                && after.assets()[e as int].creator == p by {
                assert(before.created(p).contains(e));
            }
            assert forall|j: int| 0 <= j < after.counter() implies #[trigger] after.created(
                after.assets()[j].creator,
            ).contains(j as u32) by {
                assert(after.assets()[j].creator == a0[j].creator);
                assert(before.created(a0[j].creator).contains(j as u32));
            }
            assert forall|p: Address| #[trigger] after.created(p).no_duplicates() by {
                assert(before.created(p).no_duplicates());
            }
            assert(after.creator_index_wf());
            assert(Self::transferred(before, after, ii, to));
        }
        Ok(legs)
    }

    /// Gives the asset named `nft_id` a new price, whatever its sign.
    /// `caller` is the principal whose control the environment has
    /// established; it must be the current owner.
    pub fn set_price(&mut self, nft_id: String, price: i128, caller: Address) -> (r: Result<
        (),
        Error,
    >)
        requires
            old(self).wf(),
        ensures
            final(self).wf(),
            match lookup(old(self).assets(), nft_id@) {
                None => r == Err::<(), Error>(Error::NotFound) && *final(self) == *old(self),
                Some(i) => if caller != old(self).assets()[i].owner {
                    r == Err::<(), Error>(Error::Unauthorized) && *final(self) == *old(self)
                } else {
                    &&& r == Ok::<(), Error>(())
                    &&& final(self).assets() == with_price(old(self).assets(), i, price)
                    &&& final(self).admin_spec() == old(self).admin_spec()
                    &&& forall|p: Address| #[trigger] final(self).owned(p) == old(self).owned(p)
                    &&& forall|p: Address| #[trigger] final(self).created(p) == old(self).created(p)
                },
            },
    {
        let i = match self.find(&nft_id) {
            Some(i) => i,
            None => {
                return Err(Error::NotFound);
            },
        };
        if caller != self.nfts[i].owner {
            return Err(Error::Unauthorized);
        }
        let mut nft = self.nfts[i].copy();
        nft.price = price;
        self.nfts[i] = nft;
        proof {
            let a0 = old(self).assets();
            assert(self.assets() =~= with_price(a0, i as int, price));
            assert(forall|p: Address| #[trigger] self.owned(p) == old(self).owned(p));
            assert(forall|p: Address| #[trigger] self.created(p) == old(self).created(p));
            assert forall|j: int| 0 <= j < a0.len() && j != i implies #[trigger] self.assets()[j]
                == a0[j] by {}
        }
        Ok(())
    }

    /// The record of the asset named `nft_id`.
    pub fn get_nft(&self, nft_id: &String) -> (r: Result<NFT, Error>)
        ensures
            match lookup(self.assets(), nft_id@) {
                None => r == Err::<NFT, Error>(Error::NotFound),
                Some(i) => r == Ok::<NFT, Error>(self.assets()[i]),
            },
    {
        match self.find(nft_id) {
            Some(i) => Ok(self.nfts[i].copy()),
            None => Err(Error::NotFound),
        }
    }

    /// The records at the given positions, in order.
    fn records(&self, positions: &Vec<u32>) -> (r: Vec<NFT>)
        requires
            forall|k: int| 0 <= k < positions@.len() ==> (positions@[k] as int) < self.counter(),
        ensures
            r@ == records_at(self.assets(), positions@),
    {
        let mut out: Vec<NFT> = Vec::new();
        let mut k: usize = 0;
        while k < positions.len()
            invariant
                0 <= k <= positions@.len(),
                forall|j: int| 0 <= j < positions@.len() ==> (positions@[j] as int) < self.counter(),
                out@ =~= records_at(self.assets(), positions@.take(k as int)),
            decreases positions@.len() - k,
        {
            let pos = positions[k] as usize;
            out.push(self.nfts[pos].copy());
            assert(positions@.take((k + 1) as int) =~= positions@.take(k as int).push(
                positions@[k as int],
            ));
            k = k + 1;
        }
        assert(positions@.take(k as int) =~= positions@);
        out
    }

    /// The records of the assets that `owner` holds, in the order they came
    /// to it; empty for a principal that holds none.
    pub fn get_nfts_by_owner(&self, owner: Address) -> (r: Vec<NFT>)
        requires
            self.wf(),
        ensures
            r@ == records_at(self.assets(), self.owned(owner)),
    {
        let ids = self.owner_nfts.ids(owner.0);
        assert forall|k: int| 0 <= k < ids@.len() implies (ids@[k] as int) < self.counter() by {
            assert(self.owned(owner).contains(ids@[k]));
        }
        self.records(&ids)
    }

    /// The records of the assets that `creator` minted, in minting order;
    /// empty for a principal that minted none.
    pub fn get_nfts_by_creator(&self, creator: Address) -> (r: Vec<NFT>)
        requires
            self.wf(),
        ensures
            r@ == records_at(self.assets(), self.created(creator)),
    {
        let ids = self.creator_nfts.ids(creator.0);
        assert forall|k: int| 0 <= k < ids@.len() implies (ids@[k] as int) < self.counter() by {
            assert(self.created(creator).contains(ids@[k]));
        }
        self.records(&ids)
    }

    /// The records of the assets minted as numbers `offset + 1` up to
    /// `offset + limit`, as far as they exist, in minting order.
    pub fn get_all_nfts(&self, limit: u32, offset: u32) -> (r: Vec<NFT>)
        ensures
            r@ == self.assets().subrange(
                vstd::math::min(offset as int, self.counter() as int),
                vstd::math::min(offset as int + limit as int, self.counter() as int),
            ),
    {
        let n = self.nfts.len() as u64;
        let start: u64 = if (offset as u64) < n {
            offset as u64
        } else {
            n
        };
        let end: u64 = if (offset as u64) + (limit as u64) < n {
            (offset as u64) + (limit as u64)
        } else {
            n
        };
        let end = end as usize;
        let mut out: Vec<NFT> = Vec::new();
        let mut i: usize = start as usize;
        while i < end
            invariant
                start <= i <= end,
                end <= self.nfts@.len(),
                out@ =~= self.assets().subrange(start as int, i as int),
            decreases end - i,
        {
            out.push(self.nfts[i].copy());
            i = i + 1;
        }
        out
    }

    /// The recorded admin, if any.
    pub fn admin(&self) -> (r: Option<Address>)
        ensures
            r == self.admin_spec(),
    {
        self.admin
    }

    /// The number of minted assets.
    pub fn nft_count(&self) -> (r: u32)
        requires
            self.wf(),
        ensures
            r == self.counter(),
    {
        self.nfts.len() as u32
    }

    /// An empty registry, not yet initialized.
    pub fn new() -> (r: CelestiumNFT)
        ensures
            r.wf(),
            r.admin_spec() is None,
            r.counter() == 0,
            forall|p: Address| #[trigger] r.owned(p) == Seq::<u32>::empty(),
            forall|p: Address| #[trigger] r.created(p) == Seq::<u32>::empty(),
    {
        CelestiumNFT {
            admin: None,
            nfts: Vec::new(),
            owner_nfts: AssetIndex::new(),
            creator_nfts: AssetIndex::new(),
        }
    }
}

/// The identifiers of the given records, in order.
pub open spec fn ids_of(records: Seq<NFT>) -> Seq<Seq<char>> {
    records.map_values(|n: NFT| n.id@)
}

/// After a sale of the asset at position `i` to `to`: the asset belongs to
/// `to` and its identifier is among the records listed for `to`; if the
/// seller was another principal, its identifier is no longer among the
/// seller's records; and every principal's created records keep their
/// identifiers.
pub proof fn law_transfer_reindexes(
    before: CelestiumNFT,
    after: CelestiumNFT,
    i: int,
    to: Address,
)
    requires
        before.wf(),
        after.wf(),
        0 <= i < before.counter(),
        CelestiumNFT::transferred(before, after, i, to),
    ensures
        after.assets()[i].owner == to,
        ids_of(records_at(after.assets(), after.owned(to))).contains(after.assets()[i].id@),
        before.assets()[i].owner != to ==> !ids_of(
            records_at(after.assets(), after.owned(before.assets()[i].owner)),
        ).contains(after.assets()[i].id@),
        forall|p: Address| #[trigger] after.created(p) == before.created(p),
        forall|p: Address|
            #[trigger] ids_of(records_at(after.assets(), after.created(p))) == ids_of(
                records_at(before.assets(), before.created(p)),
            ),
{
    let prev = before.assets()[i].owner;
    let id = after.assets()[i].id@;
    assert(after.assets()[i] == (NFT { owner: to, ..before.assets()[i] }));
    assert(id == nft_id_text((i + 1) as nat));
    assert(after.counter() == before.counter());
    assert(after.owned(after.assets()[i].owner).contains(i as u32));
    let k = choose|k: int| 0 <= k < after.owned(to).len() && after.owned(to)[k] == i as u32;
    assert(ids_of(records_at(after.assets(), after.owned(to)))[k] == id);
    if prev != to {
        let listed = ids_of(records_at(after.assets(), after.owned(prev)));
        assert forall|j: int| 0 <= j < listed.len() implies listed[j] != id by {
            let e = after.owned(prev)[j];
            assert(after.owned(prev).contains(e));
            assert(after.assets()[e as int].owner == prev);
            assert(e as int != i);
            assert(listed[j] == nft_id_text((e + 1) as nat));
            if listed[j] == id {
                lemma_nft_id_injective((e + 1) as nat, (i + 1) as nat);
            }
        }
    }
    assert forall|p: Address| #[trigger]
        ids_of(records_at(after.assets(), after.created(p))) == ids_of(
            records_at(before.assets(), before.created(p)),
        ) by {
        let c = before.created(p);
        assert forall|j: int| 0 <= j < c.len() implies after.assets()[c[j] as int].id
            == before.assets()[c[j] as int].id by {
            assert(c.contains(c[j]));
        }
        assert(ids_of(records_at(after.assets(), after.created(p))) =~= ids_of(
            records_at(before.assets(), before.created(p)),
        ));
    }
}

} // verus!
