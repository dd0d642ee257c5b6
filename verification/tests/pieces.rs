use hive::hex_coord::HexCoord;
use hive::hive_tile::HiveTile;
use hive::piece_bag::{PieceBag, STARTING_ANTS, STARTING_TOTAL};
use hive::tile_store::TileStore;
use hive::tile_types::TileType;

#[test]
fn kinds_have_their_letters() {
    assert_eq!(TileType::Queen.character(), 'Q');
    assert_eq!(TileType::Ant.character(), 'A');
    assert_eq!(TileType::VARIANT_COUNT, 2);
}

#[test]
fn letters_name_their_kinds() {
    assert_eq!(TileType::from_character('Q'), Some(TileType::Queen));
    assert_eq!(TileType::from_character('A'), Some(TileType::Ant));
    assert_eq!(TileType::from_character('q'), None);
    assert_eq!(TileType::from_character('X'), None);
    assert_eq!(TileType::from_character(' '), None);
    for kind in [TileType::Queen, TileType::Ant] {
        assert_eq!(TileType::from_character(kind.character()), Some(kind));
    }
}

#[test]
fn a_new_tile_is_its_own_top() {
    let tile = HiveTile::new(true, TileType::Ant);
    assert_eq!(*tile.team(), true);
    assert_eq!(*tile.tile_type(), TileType::Ant);
    assert!(tile.above().is_none());
    assert_eq!(tile.top(), &tile);
    let other = HiveTile::new(false, TileType::Queen);
    assert_eq!(*other.top().team(), false);
    assert_eq!(*other.top().tile_type(), TileType::Queen);
    assert_eq!(other.clone(), other);
    assert_ne!(other, tile);
}

#[test]
fn a_new_bag_holds_a_queen_and_six_ants() {
    let bag = PieceBag::new();
    assert!(bag.has_queen());
    assert_eq!(bag.ants(), 6);
    assert_eq!(STARTING_ANTS, 6);
    assert_eq!(STARTING_TOTAL, 7);
}

#[test]
fn options_list_the_queen_first() {
    let bag = PieceBag::new();
    assert_eq!(bag.get_place_options(false), vec![TileType::Queen, TileType::Ant]);
}

#[test]
fn a_forced_queen_is_the_only_option() {
    let bag = PieceBag::new();
    assert_eq!(bag.get_place_options(true), vec![TileType::Queen]);
}

#[test]
fn a_placed_queen_is_no_longer_forced() {
    let mut bag = PieceBag::new();
    bag.use_piece(TileType::Queen);
    assert!(!bag.has_queen());
    assert_eq!(bag.get_place_options(true), vec![TileType::Ant]);
    assert_eq!(bag.get_place_options(false), vec![TileType::Ant]);
}

#[test]
fn an_empty_bag_offers_nothing() {
    let mut bag = PieceBag::new();
    bag.use_piece(TileType::Queen);
    for left in (0..6).rev() {
        bag.use_piece(TileType::Ant);
        assert_eq!(bag.ants(), left);
    }
    assert_eq!(bag.get_place_options(false), Vec::<TileType>::new());
    assert_eq!(bag.get_place_options(true), Vec::<TileType>::new());
}

#[test]
fn a_bag_without_ants_offers_the_queen() {
    let mut bag = PieceBag::new();
    for _ in 0..6 {
        bag.use_piece(TileType::Ant);
    }
    assert_eq!(bag.get_place_options(false), vec![TileType::Queen]);
}

#[test]
fn unuse_puts_a_piece_back() {
    let mut bag = PieceBag::new();
    bag.use_piece(TileType::Ant);
    bag.use_piece(TileType::Queen);
    assert_eq!(bag.ants(), 5);
    bag.unuse_piece(TileType::Queen);
    bag.unuse_piece(TileType::Ant);
    assert_eq!(bag, PieceBag::new());
}

#[test]
fn a_store_keeps_one_tile_per_cell() {
    let mut tiles = TileStore::new();
    assert_eq!(tiles.len(), 0);
    let a = HexCoord::new(0, 0);
    let b = HexCoord::new(1, 0);
    assert!(tiles.insert(a, HiveTile::new(true, TileType::Queen)).is_none());
    assert!(tiles.insert(b, HiveTile::new(false, TileType::Ant)).is_none());
    assert_eq!(tiles.len(), 2);
    assert!(tiles.contains_key(&a));
    assert!(!tiles.contains_key(&HexCoord::new(0, 1)));
    assert_eq!(tiles.get(&b), Some(&HiveTile::new(false, TileType::Ant)));
    assert_eq!(tiles.get(&HexCoord::new(5, 5)), None);
    // a second tile on the same cell takes the place of the first
    let before = tiles.insert(a, HiveTile::new(false, TileType::Ant));
    assert_eq!(before, Some(HiveTile::new(true, TileType::Queen)));
    assert_eq!(tiles.len(), 2);
    assert_eq!(tiles.get(&a), Some(&HiveTile::new(false, TileType::Ant)));
}

#[test]
fn a_store_gives_back_what_is_removed() {
    let mut tiles = TileStore::with_capacity(4);
    let a = HexCoord::new(2, -1);
    tiles.insert(a, HiveTile::new(true, TileType::Ant));
    tiles.insert(HexCoord::new(3, -1), HiveTile::new(true, TileType::Queen));
    assert_eq!(tiles.remove(&HexCoord::new(9, 9)), None);
    assert_eq!(tiles.remove(&a), Some(HiveTile::new(true, TileType::Ant)));
    assert_eq!(tiles.len(), 1);
    assert!(!tiles.contains_key(&a));
    assert_eq!(tiles.key_at(0), HexCoord::new(3, -1));
    assert_eq!(tiles.tile_at(0), &HiveTile::new(true, TileType::Queen));
}

#[test]
fn a_cloned_store_holds_the_same_tiles() {
    let mut tiles = TileStore::new();
    tiles.insert(HexCoord::new(0, 0), HiveTile::new(true, TileType::Queen));
    tiles.insert(HexCoord::new(0, 1), HiveTile::new(false, TileType::Queen));
    let copy = tiles.clone();
    assert_eq!(copy.len(), 2);
    for i in 0..2 {
        assert_eq!(copy.key_at(i), tiles.key_at(i));
        assert_eq!(copy.tile_at(i), tiles.tile_at(i));
    }
}
