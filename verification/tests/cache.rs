use nakamoto_chain::model::{Cache, Error};
use nakamoto_chain::Header;

/// A header with the given predecessor identity, difficulty target and nonce.
fn hdr(prev: u64, bits: u64, nonce: u64) -> Header {
    Header { prev, merkle: 0, time: 0, bits, nonce }
}

/// Target yielding exactly one unit of work.
const LIGHT: u64 = 0x7fff_ffff_ffff_ffff;

/// Target yielding (2^64 - 1) / 4 units of work.
const HEAVY: u64 = 3;

/// A linked chain of `n` headers on top of `genesis`, all with target `bits`.
fn extend(genesis: &Header, bits: u64, nonce0: u64, n: usize) -> Vec<Header> {
    let mut out = Vec::new();
    let mut prev = genesis.identity();
    for i in 0..n {
        let h = hdr(prev, bits, nonce0 + i as u64);
        prev = h.identity();
        out.push(h);
    }
    out
}

#[test]
fn identity_is_deterministic_and_field_sensitive() {
    let a = hdr(1, 2, 3);
    let b = hdr(1, 2, 3);
    assert_eq!(a.identity(), b.identity());
    assert_ne!(a.identity(), hdr(1, 2, 4).identity());
    assert_ne!(a.identity(), hdr(2, 2, 3).identity());
}

#[test]
fn work_value_is_exact() {
    assert_eq!(hdr(0, 1, 0).work(), 9_223_372_036_854_775_807);
    assert_eq!(hdr(0, HEAVY, 0).work(), 4_611_686_018_427_387_903);
    assert_eq!(hdr(0, LIGHT, 0).work(), 1);
    assert_eq!(hdr(0, u64::MAX, 0).work(), 0);
    assert_eq!(hdr(0, 0, 0).work(), u64::MAX);
}

#[test]
fn new_cache_is_genesis_only() {
    let g = hdr(0, LIGHT, 0);
    let cache = Cache::new(g);
    assert_eq!(cache.height(), 0);
    assert_eq!(cache.tip(), (g.identity(), g));
    assert_eq!(cache.get_block_by_height(0), Some(g));
    assert_eq!(cache.get_block_by_height(1), None);
}

#[test]
fn import_extends_the_active_chain() {
    let g = hdr(0, LIGHT, 0);
    let mut cache = Cache::new(g);
    let batch = extend(&g, LIGHT, 1, 3);
    let (tip, height) = cache.import_blocks(&batch, &()).unwrap();
    assert_eq!(height, 3);
    assert_eq!(tip, batch[2].identity());
    assert_eq!(cache.tip(), (batch[2].identity(), batch[2]));
}

#[test]
fn heavier_fork_wins() {
    // Scenario: a three-header branch is displaced by a two-header branch of
    // more total work.
    let g = hdr(0, LIGHT, 0);
    let mut cache = Cache::new(g);
    let light3 = extend(&g, LIGHT, 1, 3);
    let (tip, height) = cache.import_blocks(&light3, &()).unwrap();
    assert_eq!((tip, height), (light3[2].identity(), 3));
    let heavy2 = extend(&g, HEAVY, 100, 2);
    let (tip, height) = cache.import_blocks(&heavy2, &()).unwrap();
    assert_eq!(height, 2);
    assert_eq!(tip, heavy2[1].identity());
    assert_eq!(cache.tip().1, heavy2[1]);
}

#[test]
fn equal_work_tie_breaks_on_smaller_tip_identity() {
    let g = hdr(0, LIGHT, 0);
    let mut cache = Cache::new(g);
    let one = extend(&g, HEAVY, 1, 2);
    let two = extend(&g, HEAVY, 100, 2);
    cache.import_blocks(&one, &()).unwrap();
    cache.import_blocks(&two, &()).unwrap();
    let expected = one[1].identity().min(two[1].identity());
    assert_eq!(cache.tip().0, expected);

    // The same winner is selected whatever the import order.
    let mut other = Cache::new(g);
    other.import_blocks(&two, &()).unwrap();
    other.import_blocks(&one, &()).unwrap();
    assert_eq!(other.tip().0, expected);
}

#[test]
fn orphan_import_changes_nothing_visible() {
    // Scenario: a header whose predecessor identity is unknown stays latent.
    let g = hdr(0, LIGHT, 0);
    let mut cache = Cache::new(g);
    let orphan = hdr(0xdead_beef, HEAVY, 7);
    let (tip, height) = cache.import_blocks(&vec![orphan], &()).unwrap();
    assert_eq!((tip, height), (g.identity(), 0));
    assert_eq!(cache.tip(), (g.identity(), g));
    assert_eq!(cache.get_block(orphan.identity()), None);
}

#[test]
fn orphans_connect_once_their_parent_arrives() {
    let g = hdr(0, LIGHT, 0);
    let mut cache = Cache::new(g);
    let chain = extend(&g, LIGHT, 1, 3);
    // The two children arrive before their parent connects them to genesis.
    cache.import_blocks(&vec![chain[1], chain[2]], &()).unwrap();
    assert_eq!(cache.height(), 0);
    let (tip, height) = cache.import_blocks(&vec![chain[0]], &()).unwrap();
    assert_eq!((tip, height), (chain[2].identity(), 3));
}

#[test]
fn get_block_sees_the_active_chain_only() {
    let g = hdr(0, LIGHT, 0);
    let mut cache = Cache::new(g);
    let light3 = extend(&g, LIGHT, 1, 3);
    let heavy2 = extend(&g, HEAVY, 100, 2);
    cache.import_blocks(&light3, &()).unwrap();
    cache.import_blocks(&heavy2, &()).unwrap();
    // Active-chain members come back with their height.
    assert_eq!(cache.get_block(g.identity()), Some((0, g)));
    assert_eq!(cache.get_block(heavy2[1].identity()), Some((2, heavy2[1])));
    // The displaced branch is still stored, but only as orphans.
    for h in &light3 {
        assert_eq!(cache.get_block(h.identity()), None);
    }
    assert_eq!(cache.get_block(0xffff), None);
}

#[test]
fn iterate_yields_all_heights_in_order() {
    let g = hdr(0, LIGHT, 0);
    let mut cache = Cache::new(g);
    let chain = extend(&g, LIGHT, 1, 4);
    cache.import_blocks(&chain, &()).unwrap();
    let items = cache.iter();
    assert_eq!(items.len() as u64, cache.height() + 1);
    for (i, (height, header)) in items.iter().enumerate() {
        assert_eq!(*height, i as u64);
        assert_eq!(Some(*header), cache.get_block_by_height(i as u64));
    }
    // The snapshot is independent of later mutation.
    cache.rollback(0).unwrap();
    assert_eq!(items.len(), 5);
    assert_eq!(items[4].1, chain[3]);
}

#[test]
fn rollback_truncates_and_forgets() {
    // Scenario: a chain of height five rolled back to genesis alone.
    let g = hdr(0, LIGHT, 0);
    let mut cache = Cache::new(g);
    let chain = extend(&g, LIGHT, 1, 5);
    cache.import_blocks(&chain, &()).unwrap();
    assert_eq!(cache.height(), 5);
    cache.rollback(0).unwrap();
    assert_eq!(cache.height(), 0);
    assert_eq!(cache.get_block_by_height(0), Some(g));
    assert_eq!(cache.get_block_by_height(1), None);
    assert_eq!(cache.rollback(10), Err(Error::InvalidHeight));
}

#[test]
fn rollback_then_reimport_restores_the_tip() {
    let g = hdr(0, LIGHT, 0);
    let mut cache = Cache::new(g);
    let chain = extend(&g, LIGHT, 1, 4);
    cache.import_blocks(&chain, &()).unwrap();
    let original_tip = cache.tip();
    cache.rollback(2).unwrap();
    assert_eq!(cache.height(), 2);
    assert_eq!(cache.tip().0, chain[1].identity());
    // The forgotten headers are truly gone from the store, not just hidden.
    assert_eq!(cache.get_block(chain[3].identity()), None);
    let removed = vec![chain[2], chain[3]];
    let (tip, height) = cache.import_blocks(&removed, &()).unwrap();
    assert_eq!((tip, height), (original_tip.0, 4));
    assert_eq!(cache.tip(), original_tip);
}

#[test]
fn genesis_survives_every_operation_but_reconstruction() {
    let g = hdr(0, LIGHT, 0);
    let mut cache = Cache::new(g);
    cache.import_blocks(&extend(&g, LIGHT, 1, 3), &()).unwrap();
    assert_eq!(cache.get_block_by_height(0), Some(g));
    cache.import_blocks(&extend(&g, HEAVY, 50, 2), &()).unwrap();
    assert_eq!(cache.get_block_by_height(0), Some(g));
    cache.rollback(1).unwrap();
    assert_eq!(cache.get_block_by_height(0), Some(g));
    // Only bulk reconstruction starts over from a new genesis.
    let g2 = hdr(9, LIGHT, 9);
    let rebuilt = Cache::from(vec![g2]).unwrap();
    assert_eq!(rebuilt.get_block_by_height(0), Some(g2));
}

#[test]
fn from_bulk_loads_an_ordered_chain() {
    let g = hdr(0, LIGHT, 0);
    let mut headers = vec![g];
    headers.extend(extend(&g, LIGHT, 1, 3));
    let cache = Cache::from(headers.clone()).unwrap();
    assert_eq!(cache.height(), 3);
    assert_eq!(cache.tip(), (headers[3].identity(), headers[3]));
    assert_eq!(cache.get_block_by_height(0), Some(g));
    assert_eq!(cache.get_block(headers[2].identity()), Some((2, headers[2])));
}

#[test]
fn from_rejects_zero_headers() {
    match Cache::from(vec![]) {
        Err(e) => assert_eq!(e, Error::EmptyChain),
        Ok(_) => panic!("an empty chain must be refused"),
    }
}

#[test]
fn import_reports_a_fully_disconnected_store() {
    // A genesis whose own predecessor identity names a stored header can no
    // longer be reconstructed as a branch root: the walk past it ends on a
    // non-genesis header, so no branch reaches genesis exactly.
    let filler = hdr(42, LIGHT, 42);
    let g = hdr(filler.identity(), LIGHT, 0);
    let mut cache = Cache::new(g);
    let before = cache.tip();
    let r = cache.import_blocks(&vec![filler], &());
    assert_eq!(r, Err(Error::Disconnected));
    // The active chain is left exactly as it was.
    assert_eq!(cache.tip(), before);
    assert_eq!(cache.height(), 0);
}
