use celestium_nft::ids::nft_id;
use celestium_nft::payment::split_payment;
use celestium_nft::{Address, CelestiumNFT, Error, Payment, DEFAULT_PRICE};

fn text(s: &str) -> String {
    s.to_string()
}

fn mint_plain(reg: &mut CelestiumNFT, creator: Address, royalty: u32) -> String {
    reg.mint(
        text("Cosmic Journey"),
        text("A mesmerizing voyage through the cosmos"),
        text("https://example.com/image.jpg"),
        royalty,
        creator,
        creator,
        1_700_000_000,
    )
    .unwrap()
}

#[test]
fn test_initialize_and_mint() {
    let mut reg = CelestiumNFT::new();
    let admin = Address(1);
    let creator = Address(2);

    assert_eq!(reg.initialize(admin, admin), Ok(()));

    let nft_id = reg
        .mint(
            text("Cosmic Journey"),
            text("A mesmerizing voyage through the cosmos"),
            text("https://example.com/image.jpg"),
            10u32,
            creator,
            creator,
            0,
        )
        .unwrap();

    let nft = reg.get_nft(&nft_id).unwrap();
    assert_eq!(nft.name, text("Cosmic Journey"));
    assert_eq!(nft.royalty_percentage, 10u32);
    assert_eq!(nft.creator, creator);
    assert_eq!(nft.owner, creator);
}

#[test]
fn test_transfer_with_royalties() {
    let mut reg = CelestiumNFT::new();
    let admin = Address(1);
    let creator = Address(2);
    let buyer = Address(3);

    reg.initialize(admin, admin).unwrap();

    let nft_id = reg
        .mint(
            text("Cosmic Journey"),
            text("A mesmerizing voyage through the cosmos"),
            text("https://example.com/image.jpg"),
            10u32,
            creator,
            creator,
            0,
        )
        .unwrap();

    let nft = reg.get_nft(&nft_id).unwrap();
    assert_eq!(nft.price, 100_0000000);

    let legs = reg.transfer(nft_id.clone(), buyer, nft.price, creator).unwrap();
    assert_eq!(
        legs,
        vec![
            Payment { from: buyer, to: creator, amount: 900_000_000 },
            Payment { from: buyer, to: creator, amount: 100_000_000 },
        ]
    );

    let updated_nft = reg.get_nft(&nft_id).unwrap();
    assert_eq!(updated_nft.owner, buyer);

    let buyer_nfts = reg.get_nfts_by_owner(buyer);
    assert_eq!(buyer_nfts.len(), 1);
    assert_eq!(buyer_nfts[0].id, nft_id);

    let creator_nfts = reg.get_nfts_by_creator(creator);
    assert_eq!(creator_nfts.len(), 1);
    assert_eq!(creator_nfts[0].id, nft_id);
}

#[test]
fn mint_advances_counter_and_sets_owner_to_creator() {
    let mut reg = CelestiumNFT::new();
    let creator = Address(7);
    assert_eq!(reg.nft_count(), 0);
    let id = mint_plain(&mut reg, creator, 5);
    assert_eq!(id, "NFT1");
    assert_eq!(reg.nft_count(), 1);
    let id2 = mint_plain(&mut reg, creator, 5);
    assert_eq!(id2, "NFT2");
    assert_eq!(reg.nft_count(), 2);
    let nft = reg.get_nft(&id2).unwrap();
    assert_eq!(nft.owner, creator);
    assert_eq!(nft.creator, creator);
    assert_eq!(nft.price, DEFAULT_PRICE);
    assert_eq!(nft.created_at, 1_700_000_000);
    assert_eq!(nft.description, "A mesmerizing voyage through the cosmos");
    assert_eq!(nft.image_url, "https://example.com/image.jpg");
}

#[test]
fn mint_royalty_bounds() {
    let mut reg = CelestiumNFT::new();
    let c = Address(9);
    assert!(reg.mint(text("a"), text("b"), text("c"), 0, c, c, 0).is_ok());
    assert!(reg.mint(text("a"), text("b"), text("c"), 100, c, c, 0).is_ok());
    assert_eq!(reg.mint(text("a"), text("b"), text("c"), 101, c, c, 0), Err(Error::InvalidRoyalty));
    assert_eq!(
        reg.mint(text("a"), text("b"), text("c"), u32::MAX, c, c, 0),
        Err(Error::InvalidRoyalty)
    );
    assert_eq!(reg.nft_count(), 2);
}

#[test]
fn mint_by_another_principal_is_refused() {
    let mut reg = CelestiumNFT::new();
    let r = reg.mint(text("a"), text("b"), text("c"), 10, Address(1), Address(2), 0);
    assert_eq!(r, Err(Error::Unauthorized));
    assert_eq!(reg.nft_count(), 0);
    assert!(reg.get_nfts_by_creator(Address(1)).is_empty());
}

#[test]
fn initialize_twice_fails_and_keeps_admin() {
    let mut reg = CelestiumNFT::new();
    assert_eq!(reg.admin(), None);
    assert_eq!(reg.initialize(Address(1), Address(1)), Ok(()));
    assert_eq!(reg.admin(), Some(Address(1)));
    assert_eq!(reg.initialize(Address(2), Address(2)), Err(Error::AlreadyInitialized));
    assert_eq!(reg.initialize(Address(1), Address(1)), Err(Error::AlreadyInitialized));
    assert_eq!(reg.admin(), Some(Address(1)));
}

#[test]
fn initialize_needs_the_admin_itself() {
    let mut reg = CelestiumNFT::new();
    assert_eq!(reg.initialize(Address(1), Address(2)), Err(Error::Unauthorized));
    assert_eq!(reg.admin(), None);
}

#[test]
fn transfer_moves_between_owner_lists() {
    let mut reg = CelestiumNFT::new();
    let c = Address(1);
    let b = Address(2);
    let first = mint_plain(&mut reg, c, 0);
    let second = mint_plain(&mut reg, c, 0);
    reg.transfer(first.clone(), b, DEFAULT_PRICE, c).unwrap();
    let owned_b: Vec<String> = reg.get_nfts_by_owner(b).into_iter().map(|n| n.id).collect();
    let owned_c: Vec<String> = reg.get_nfts_by_owner(c).into_iter().map(|n| n.id).collect();
    let created_c: Vec<String> = reg.get_nfts_by_creator(c).into_iter().map(|n| n.id).collect();
    assert_eq!(owned_b, vec![first.clone()]);
    assert_eq!(owned_c, vec![second.clone()]);
    assert_eq!(created_c, vec![first.clone(), second]);
    assert!(reg.get_nfts_by_creator(b).is_empty());
}

#[test]
fn transfer_without_royalty_has_one_leg() {
    let mut reg = CelestiumNFT::new();
    let c = Address(1);
    let b = Address(2);
    let id = mint_plain(&mut reg, c, 0);
    let legs = reg.transfer(id, b, 500, c);
    assert_eq!(legs, Err(Error::InsufficientPayment));
    let id = nft_id(1);
    let legs = reg.transfer(id, b, DEFAULT_PRICE + 7, c).unwrap();
    assert_eq!(legs, vec![Payment { from: b, to: c, amount: DEFAULT_PRICE + 7 }]);
}

#[test]
fn resale_pays_seller_and_creator_apart() {
    let mut reg = CelestiumNFT::new();
    let c = Address(1);
    let b = Address(2);
    let d = Address(3);
    let id = mint_plain(&mut reg, c, 25);
    reg.transfer(id.clone(), b, DEFAULT_PRICE, c).unwrap();
    reg.set_price(id.clone(), 1000, b).unwrap();
    let legs = reg.transfer(id.clone(), d, 1003, b).unwrap();
    assert_eq!(
        legs,
        vec![
            Payment { from: d, to: b, amount: 753 },
            Payment { from: d, to: c, amount: 250 },
        ]
    );
    assert_eq!(reg.get_nft(&id).unwrap().owner, d);
    assert!(reg.get_nfts_by_owner(b).is_empty());
}

#[test]
fn transfer_back_to_the_same_owner_still_charges() {
    let mut reg = CelestiumNFT::new();
    let c = Address(1);
    let id = mint_plain(&mut reg, c, 10);
    let legs = reg.transfer(id.clone(), c, 100, c);
    assert_eq!(legs, Err(Error::InsufficientPayment));
    reg.set_price(id.clone(), 100, c).unwrap();
    let legs = reg.transfer(id.clone(), c, 100, c).unwrap();
    assert_eq!(
        legs,
        vec![Payment { from: c, to: c, amount: 90 }, Payment { from: c, to: c, amount: 10 }]
    );
    let owned: Vec<String> = reg.get_nfts_by_owner(c).into_iter().map(|n| n.id).collect();
    assert_eq!(owned, vec![id]);
}

#[test]
fn transfer_errors() {
    let mut reg = CelestiumNFT::new();
    let c = Address(1);
    let b = Address(2);
    let id = mint_plain(&mut reg, c, 10);
    assert_eq!(reg.transfer(text("NFT2"), b, DEFAULT_PRICE, c), Err(Error::NotFound));
    assert_eq!(reg.transfer(text("nft1"), b, DEFAULT_PRICE, c), Err(Error::NotFound));
    assert_eq!(reg.transfer(id.clone(), b, DEFAULT_PRICE, b), Err(Error::Unauthorized));
}

#[test]
fn insufficient_payment_changes_nothing() {
    let mut reg = CelestiumNFT::new();
    let c = Address(1);
    let b = Address(2);
    let id = mint_plain(&mut reg, c, 10);
    assert_eq!(reg.transfer(id.clone(), b, DEFAULT_PRICE - 1, c), Err(Error::InsufficientPayment));
    let nft = reg.get_nft(&id).unwrap();
    assert_eq!(nft.owner, c);
    assert_eq!(nft.price, DEFAULT_PRICE);
    assert_eq!(reg.get_nfts_by_owner(c).len(), 1);
    assert!(reg.get_nfts_by_owner(b).is_empty());
}

#[test]
fn set_price_rules() {
    let mut reg = CelestiumNFT::new();
    let c = Address(1);
    let id = mint_plain(&mut reg, c, 10);
    assert_eq!(reg.set_price(id.clone(), 5, Address(2)), Err(Error::Unauthorized));
    assert_eq!(reg.set_price(text("NFT9"), 5, c), Err(Error::NotFound));
    assert_eq!(reg.set_price(id.clone(), -40, c), Ok(()));
    assert_eq!(reg.get_nft(&id).unwrap().price, -40);
    assert_eq!(reg.get_nft(&id).unwrap().owner, c);
}

#[test]
fn get_nft_unknown_is_not_found() {
    let reg = CelestiumNFT::new();
    assert_eq!(reg.get_nft(&text("NFT1")).err(), Some(Error::NotFound));
    assert!(reg.get_nfts_by_owner(Address(4)).is_empty());
    assert!(reg.get_nfts_by_creator(Address(4)).is_empty());
}

#[test]
fn get_all_nfts_pages() {
    let mut reg = CelestiumNFT::new();
    for k in 0..5u64 {
        mint_plain(&mut reg, Address(k), 1);
    }
    let page: Vec<String> = reg.get_all_nfts(2, 0).into_iter().map(|n| n.id).collect();
    assert_eq!(page, vec![text("NFT1"), text("NFT2")]);
    let tail: Vec<String> = reg.get_all_nfts(10, 4).into_iter().map(|n| n.id).collect();
    assert_eq!(tail, vec![text("NFT5")]);
    assert!(reg.get_all_nfts(3, 9).is_empty());
    assert!(reg.get_all_nfts(0, 1).is_empty());
    assert_eq!(reg.get_all_nfts(u32::MAX, u32::MAX).len(), 0);
    assert_eq!(reg.get_all_nfts(u32::MAX, 1).len(), 4);
}

#[test]
fn split_payment_examples() {
    assert_eq!(split_payment(100, 10), (90, 10));
    assert_eq!(split_payment(101, 33), (68, 33));
    assert_eq!(split_payment(99, 1), (99, 0));
    assert_eq!(split_payment(0, 50), (0, 0));
    assert_eq!(split_payment(100, 0), (100, 0));
    assert_eq!(split_payment(100, 100), (0, 100));
    assert_eq!(split_payment(-101, 33), (-68, -33));
    assert_eq!(split_payment(i128::MAX, 100), (0, i128::MAX));
    assert_eq!(split_payment(i128::MIN, 100), (0, i128::MIN));
    for amount in [0i128, 1, 7, 99, 100, 101, 12345, 1_000_000_007] {
        for pct in [0u32, 1, 10, 33, 50, 99, 100] {
            let (seller, royalty) = split_payment(amount, pct);
            assert_eq!(seller + royalty, amount);
            assert_eq!(royalty, amount * pct as i128 / 100);
        }
    }
}

#[test]
fn nft_ids_are_decimal() {
    assert_eq!(nft_id(1), "NFT1");
    assert_eq!(nft_id(10), "NFT10");
    assert_eq!(nft_id(4_294_967_295), "NFT4294967295");
}

#[test]
fn sale_scenario_with_creator_as_seller() {
    let mut reg = CelestiumNFT::new();
    let c = Address(11);
    let b = Address(12);
    let a = mint_plain(&mut reg, c, 10);
    let p: i128 = 2_000;
    reg.set_price(a.clone(), p, c).unwrap();
    let legs = reg.transfer(a.clone(), b, p, c).unwrap();
    assert_eq!(
        legs,
        vec![Payment { from: b, to: c, amount: 1_800 }, Payment { from: b, to: c, amount: 200 }]
    );
    let by_b: Vec<String> = reg.get_nfts_by_owner(b).into_iter().map(|n| n.id).collect();
    let by_c: Vec<String> = reg.get_nfts_by_owner(c).into_iter().map(|n| n.id).collect();
    let made_c: Vec<String> = reg.get_nfts_by_creator(c).into_iter().map(|n| n.id).collect();
    assert_eq!(by_b, vec![a.clone()]);
    assert!(by_c.is_empty());
    assert_eq!(made_c, vec![a]);
}
