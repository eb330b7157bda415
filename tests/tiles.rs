use ex20::corners::corner_product;
use ex20::parse::parse_tiles;
use ex20::tile::Tile;
use ex20::{part1, part2};

const PUZZLE: &str = "Tile 1951:\n..#......#\n.###.#..#.\n#..#.####.\n#..###.##.\n####.###.#\n####..#.##\n.#...###.#\n....#.####\n#..#.#.##.\n#....#.##.\n\nTile 2311:\n##.##.#.##\n.#####.##.\n..######..\n.#..######\n#.###...##\n#......##.\n###...#..#\n#...######\n.####...#.\n.##...#.#.\n\nTile 3079:\n#..#...#..\n..#..#.#..\n.##.....#.\n#####.#.##\n#.##.#...#\n.#.#.##...\n##.#.#..##\n###..##..#\n....##..##\n.##.##....\n\nTile 2729:\n#....#.##.\n.##....#.#\n...#.#.#.#\n...##.#...\n#####.#..#\n..#......#\n.##.####.#\n.#..###..#\n..#...#.##\n###.#...##\n\nTile 1427:\n.##...#.#.\n#..#..##.#\n#.#.###.##\n....###...\n##...###.#\n####..##..\n#.#..##..#\n####..##..\n#.#..###.#\n##......##\n\nTile 2473:\n.##.##....\n######.##.\n#...######\n.##.#...##\n#....####.\n.#.##..#..\n#.#..###..\n.##.##.##.\n#######..#\n##.#.###.#\n\nTile 2971:\n###.#...##\n##...###.#\n..#...###.\n#..##.#.#.\n.####...##\n...#....#.\n#.###..##.\n.....##.##\n...#..####\n..###.##.#\n\nTile 1489:\n##......##\n###...#...\n.##..#..##\n..#.#..##.\n###...###.\n....#..#.#\n.##....#..\n#.####.###\n#.#.###.#.\n##.......#\n\nTile 1171:\n##.#.###.#\n.##..#..#.\n#..#..#.#.\n.##....#..\n......####\n###...###.\n..#.#.###.\n#.#....#..\n.#.#.##...\n##.##...#.\n\n";

const SMALL_GRID: [&[&str]; 9] = [
        &["myn", "mzj", "qej"],
        &["nbi", "jpl", "jey"],
        &["iqp", "lsg", "ydt"],
        &["qej", "zir", "jdx"],
        &["jey", "rwz", "xcv"],
        &["ydt", "zte", "vkp"],
        &["jdx", "rdl", "grp"],
        &["xcv", "lnk", "poq"],
        &["vkp", "ktu", "qib"],
];

const CHAINS: [&[&str]; 15] = [
        &["MYN", "MZJ", "QEJ"],
        &["NBI", "JPL", "JEY"],
        &["IQP", "LSG", "YDT"],
        &["BZT", "ZFH", "RBO"],
        &["TFJ", "HQB", "OSJ"],
        &["JXW", "BUG", "JXT"],
        &["OBY", "IWZ", "YYM"],
        &["YPY", "ZFS", "MGU"],
        &["YZY", "SUE", "UER"],
        &["UEJ", "JET", "HFR"],
        &["JCI", "TVX", "RVG"],
        &["IWU", "XOJ", "GWG"],
        &["NNO", "VOK", "LKB"],
        &["OWH", "KMV", "BKC"],
        &["HQX", "VDL", "CDM"],
];

fn grid(rows: &[&str]) -> Vec<Vec<char>> {
    rows.iter().map(|r| r.chars().collect()).collect()
}

fn tiles_with_ids(grids: &[&[&str]], ids: &[u16]) -> Vec<Tile> {
    grids.iter().zip(ids.iter()).map(|(g, id)| Tile::new(*id, grid(g))).collect()
}

#[test]
fn part_2() {
    assert_eq!(part2(PUZZLE), 2006);
}

#[test]
fn part1_three_by_three_puzzle() {
    assert_eq!(part1(PUZZLE), 1951 * 3079 * 2971 * 1171);
    assert_eq!(part1(PUZZLE), 20899048083289);
}

#[test]
fn part1_same_input_twice() {
    assert_eq!(part1(PUZZLE), part1(PUZZLE));
}

#[test]
fn small_grid_corners() {
    let ids: [u16; 9] = [1101, 1102, 1103, 1104, 1105, 1106, 1107, 1108, 1109];
    let tiles = tiles_with_ids(&SMALL_GRID, &ids);
    assert_eq!(corner_product(&tiles), 1101 * 1103 * 1107 * 1109);
    assert_eq!(corner_product(&tiles), 1490877630189);
}

#[test]
fn two_by_two_all_tiles_have_one_neighbour() {
    let ids: [u16; 4] = [7, 11, 13, 17];
    let grids: [&[&str]; 4] = [SMALL_GRID[0], SMALL_GRID[1], SMALL_GRID[3], SMALL_GRID[4]];
    let tiles = tiles_with_ids(&grids, &ids);
    // In a two by two arrangement each tile touches two others, so all four are corners.
    assert_eq!(corner_product(&tiles), 7 * 11 * 13 * 17);
}

#[test]
fn corner_product_wraps() {
    let mut ids: Vec<u16> = Vec::new();
    for k in 0..5u16 {
        ids.push(100 + k);
        ids.push(65535 - k);
        ids.push(200 + k);
    }
    let tiles = tiles_with_ids(&CHAINS, &ids);
    assert_eq!(corner_product(&tiles), 23924406670720904);
}

#[test]
fn corner_product_empty_is_one() {
    let tiles: Vec<Tile> = Vec::new();
    assert_eq!(corner_product(&tiles), 1);
}

#[test]
fn single_tile_is_not_its_own_neighbour() {
    let tiles = vec![Tile::new(42, grid(SMALL_GRID[4]))];
    assert!(tiles[0].is_neighbour_of(&tiles[0]));
    assert_eq!(ex20::corners::count_neighbours(&tiles, 0), 0);
    assert_eq!(corner_product(&tiles), 1);
}

#[test]
fn neighbour_counts_in_grid() {
    let ids: [u16; 9] = [1, 2, 3, 4, 5, 6, 7, 8, 9];
    let tiles = tiles_with_ids(&SMALL_GRID, &ids);
    let expected: [usize; 9] = [2, 3, 2, 3, 4, 3, 2, 3, 2];
    for i in 0..9 {
        assert_eq!(ex20::corners::count_neighbours(&tiles, i), expected[i]);
    }
}

#[test]
fn adjacency_is_symmetric() {
    let ids: [u16; 9] = [1, 2, 3, 4, 5, 6, 7, 8, 9];
    let tiles = tiles_with_ids(&SMALL_GRID, &ids);
    for a in &tiles {
        for b in &tiles {
            assert_eq!(a.is_neighbour_of(b), b.is_neighbour_of(a));
        }
    }
}

#[test]
fn tiles_without_shared_border_are_not_neighbours() {
    let a = Tile::new(1, grid(SMALL_GRID[0]));
    let b = Tile::new(2, grid(SMALL_GRID[8]));
    assert!(!a.is_neighbour_of(&b));
    assert!(!b.is_neighbour_of(&a));
}

#[test]
fn reversed_border_matches() {
    let a = Tile::new(1, grid(&["abc", "def", "ghi"]));
    let b = Tile::new(2, grid(&["xyz", "uvw", "cba"]));
    assert!(a.is_neighbour_of(&b));
    let c = Tile::new(3, grid(&["xya", "uvd", "rsg"]));
    assert!(a.is_neighbour_of(&c));
    let d = Tile::new(4, grid(&["xyz", "ueu", "rst"]));
    assert!(!a.is_neighbour_of(&d));
}

#[test]
fn one_by_one_tiles() {
    let a = Tile::new(5, grid(&["#"]));
    let b = Tile::new(6, grid(&["#"]));
    let c = Tile::new(7, grid(&["."]));
    assert!(a.is_neighbour_of(&b));
    assert!(!a.is_neighbour_of(&c));
    assert_eq!(a.id(), 5);
}

#[test]
fn parse_reads_every_record() {
    let tiles = parse_tiles(PUZZLE, 10).unwrap();
    assert_eq!(tiles.len(), 9);
    assert_eq!(tiles[0].id(), 1951);
    assert_eq!(tiles[8].id(), 1171);
    assert_eq!(corner_product(&tiles), 20899048083289);
}

#[test]
fn parse_small_records() {
    let text = "Tile 0012:\nabc\ndef\nghi\n\nTile 0034:\ncba\nxyz\nuvw\n";
    let tiles = parse_tiles(text, 3).unwrap();
    assert_eq!(tiles.len(), 2);
    assert_eq!(tiles[0].id(), 12);
    assert_eq!(tiles[1].id(), 34);
    assert!(tiles[0].is_neighbour_of(&tiles[1]));
}

#[test]
fn parse_without_final_newline() {
    let text = "Tile 0012:\nab\ncd";
    let tiles = parse_tiles(text, 2).unwrap();
    assert_eq!(tiles.len(), 1);
}

#[test]
fn parse_stops_at_trailing_blank_lines() {
    let text = "Tile 0012:\nab\ncd\n\n\n\n";
    let tiles = parse_tiles(text, 2).unwrap();
    assert_eq!(tiles.len(), 1);
}

#[test]
fn parse_empty_input() {
    assert_eq!(parse_tiles("", 10).unwrap().len(), 0);
}

#[test]
fn parse_later_record_replaces_same_id() {
    let text = "Tile 0007:\nab\ncd\n\nTile 0008:\nxy\nzw\n\nTile 0007:\npq\nrs\n";
    let tiles = parse_tiles(text, 2).unwrap();
    assert_eq!(tiles.len(), 2);
    assert_eq!(tiles[0].id(), 7);
    assert_eq!(tiles[1].id(), 8);
    let pq = Tile::new(1, grid(&["pq", "rs"]));
    let ab = Tile::new(1, grid(&["ab", "cd"]));
    assert!(tiles[0].is_neighbour_of(&pq));
    assert!(!tiles[0].is_neighbour_of(&ab));
}

#[test]
fn parse_rejects_bad_header() {
    assert!(parse_tiles("Tile 12a4:\nab\ncd\n", 2).is_none());
    assert!(parse_tiles("Tile 12\nab\ncd\n", 2).is_none());
}

#[test]
fn parse_rejects_short_row() {
    assert!(parse_tiles("Tile 0012:\nab\nc\n", 2).is_none());
}

#[test]
fn parse_rejects_wrong_row_count() {
    assert!(parse_tiles("Tile 0012:\nab\ncd\nef\n", 2).is_none());
    assert!(parse_tiles("Tile 0012:\nab\n", 2).is_none());
}

#[test]
fn parse_rejects_zero_side() {
    assert!(parse_tiles("Tile 0012:\n", 0).is_none());
}
