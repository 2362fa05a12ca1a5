use photo_packer::canvas::Canvas;
use photo_packer::photo::{PackError, Photo, Placement};

fn photo(id: &str, width: u32, height: u32) -> Photo {
    Photo::new(id.to_string(), width, height)
}

fn positions(canvas: &Canvas) -> Vec<(String, usize, usize)> {
    canvas.placements().iter().map(|p| (p.photo_id.clone(), p.x, p.y)).collect()
}

fn at(id: &str, x: usize, y: usize) -> (String, usize, usize) {
    (id.to_string(), x, y)
}

#[test]
fn photo_new_keeps_its_arguments() {
    let p = Photo::new("sunset".to_string(), 450, 35);
    assert_eq!(p.id, "sunset");
    assert_eq!(p.width, 450);
    assert_eq!(p.height, 35);
    assert_eq!(p.clone(), p);
}

#[test]
fn new_canvas_is_empty_and_flat() {
    let canvas = Canvas::new(1500, vec![photo("a", 450, 35)]);
    assert_eq!(canvas.width(), 1500);
    assert_eq!(canvas.photos().len(), 1);
    assert_eq!(canvas.photos()[0], photo("a", 450, 35));
    assert!(canvas.placements().is_empty());
    assert_eq!(canvas.skyline().segments().len(), 1);
    assert_eq!(canvas.skyline().segments()[0].x_start, 0);
    assert_eq!(canvas.skyline().segments()[0].x_end, 1500);
    assert_eq!(canvas.skyline().segments()[0].height, 0);
}

#[test]
fn taller_photo_goes_first_and_the_other_beside_it() {
    let mut canvas = Canvas::new(1500, vec![photo("a", 450, 35), photo("b", 500, 450)]);
    assert_eq!(canvas.pack_photos(), Ok(()));
    assert_eq!(positions(&canvas), vec![at("b", 0, 0), at("a", 500, 0)]);
    assert_eq!(canvas.photos()[0].id, "b");
    assert_eq!(canvas.photos()[1].id, "a");
}

#[test]
fn full_width_photos_stack() {
    let mut canvas = Canvas::new(1500, vec![photo("low", 1500, 100), photo("high", 1500, 200)]);
    assert_eq!(canvas.pack_photos(), Ok(()));
    assert_eq!(positions(&canvas), vec![at("high", 0, 0), at("low", 0, 200)]);
    let grid = canvas.layout();
    assert_eq!(grid.len(), 300);
    assert!(grid[199].iter().all(|cell| *cell == Some(0)));
    assert!(grid[200].iter().all(|cell| *cell == Some(1)));
}

#[test]
fn oversized_photo_is_refused_by_name() {
    let mut canvas = Canvas::new(1000, vec![photo("small", 10, 10), photo("huge", 1200, 5)]);
    assert_eq!(canvas.pack_photos(), Err(PackError::OversizedPhoto { id: "huge".to_string() }));
    assert!(canvas.placements().is_empty());
    assert_eq!(canvas.photos()[0].id, "small");
    assert_eq!(canvas.photos()[1].id, "huge");
    assert!(canvas.layout().is_empty());
}

#[test]
fn first_oversized_photo_is_named() {
    let mut canvas = Canvas::new(
        100,
        vec![photo("ok", 100, 1), photo("wide", 101, 9), photo("wider", 500, 2)],
    );
    assert_eq!(canvas.pack_photos(), Err(PackError::OversizedPhoto { id: "wide".to_string() }));
}

#[test]
fn photo_as_wide_as_the_canvas_is_accepted() {
    let mut canvas = Canvas::new(1000, vec![photo("exact", 1000, 7)]);
    assert_eq!(canvas.pack_photos(), Ok(()));
    assert_eq!(positions(&canvas), vec![at("exact", 0, 0)]);
}

#[test]
fn empty_photo_list_gives_no_rows() {
    let mut canvas = Canvas::new(1500, Vec::new());
    assert_eq!(canvas.pack_photos(), Ok(()));
    assert!(canvas.placements().is_empty());
    assert_eq!(canvas.layout().len(), 0);
}

fn six_photos() -> Vec<Photo> {
    vec![
        photo("A", 4, 3),
        photo("B", 6, 3),
        photo("C", 5, 2),
        photo("D", 5, 2),
        photo("E", 10, 1),
        photo("F", 3, 5),
    ]
}

#[test]
fn six_photos_fill_the_gaps() {
    let mut canvas = Canvas::new(10, six_photos());
    assert_eq!(canvas.pack_photos(), Ok(()));
    assert_eq!(
        positions(&canvas),
        vec![at("F", 0, 0), at("B", 3, 0), at("A", 3, 3), at("C", 0, 6), at("D", 5, 6), at("E", 0, 8)]
    );
    let segments = canvas.skyline().segments();
    assert_eq!(segments.len(), 1);
    assert_eq!((segments[0].x_start, segments[0].x_end, segments[0].height), (0, 10, 9));
}

#[test]
fn placements_lie_on_the_canvas_and_in_the_grid() {
    let mut canvas = Canvas::new(10, six_photos());
    assert_eq!(canvas.pack_photos(), Ok(()));
    let grid = canvas.layout();
    assert_eq!(grid.len(), 9);
    for row in &grid {
        assert_eq!(row.len(), 10);
    }
    for p in canvas.placements() {
        assert!(p.x + p.width as usize <= 10);
        assert!(p.y + p.height as usize <= grid.len());
    }
}

#[test]
fn no_two_placements_share_a_cell() {
    let mut canvas = Canvas::new(10, six_photos());
    assert_eq!(canvas.pack_photos(), Ok(()));
    let grid = canvas.layout();
    let placements = canvas.placements();
    let mut counted = vec![0usize; placements.len()];
    for (r, row) in grid.iter().enumerate() {
        for (c, cell) in row.iter().enumerate() {
            let holders: Vec<usize> = (0..placements.len())
                .filter(|&i| {
                    let p = &placements[i];
                    p.x <= c && c < p.x + p.width as usize && p.y <= r && r < p.y + p.height as usize
                })
                .collect();
            assert!(holders.len() <= 1);
            assert_eq!(*cell, holders.first().copied());
            if let Some(i) = cell {
                counted[*i] += 1;
            }
        }
    }
    for (i, p) in placements.iter().enumerate() {
        assert_eq!(counted[i], p.width as usize * p.height as usize);
    }
}

#[test]
fn grid_cells_name_their_placements() {
    let mut canvas = Canvas::new(10, six_photos());
    assert_eq!(canvas.pack_photos(), Ok(()));
    let grid = canvas.layout();
    assert_eq!(grid[0], vec![Some(0), Some(0), Some(0), Some(1), Some(1), Some(1), Some(1), Some(1), Some(1), None]);
    assert_eq!(grid[3], vec![Some(0), Some(0), Some(0), Some(2), Some(2), Some(2), Some(2), None, None, None]);
    assert_eq!(grid[5], vec![None, None, None, Some(2), Some(2), Some(2), Some(2), None, None, None]);
    assert_eq!(grid[7], vec![Some(3), Some(3), Some(3), Some(3), Some(3), Some(4), Some(4), Some(4), Some(4), Some(4)]);
    assert_eq!(grid[8], vec![Some(5); 10]);
}

#[test]
fn packing_twice_gives_the_same_placements() {
    let photos = vec![
        photo("first", 3, 2),
        photo("second", 3, 2),
        photo("third", 3, 2),
        photo("tall", 2, 4),
        photo("fourth", 3, 2),
    ];
    let mut one = Canvas::new(8, photos.clone());
    let mut two = Canvas::new(8, photos);
    assert_eq!(one.pack_photos(), Ok(()));
    assert_eq!(two.pack_photos(), Ok(()));
    assert_eq!(one.placements(), two.placements());
    assert_eq!(
        positions(&one),
        vec![at("tall", 0, 0), at("first", 2, 0), at("second", 5, 0), at("third", 2, 2), at("fourth", 5, 2)]
    );
}

#[test]
fn packing_again_starts_from_an_empty_canvas() {
    let mut canvas = Canvas::new(10, six_photos());
    assert_eq!(canvas.pack_photos(), Ok(()));
    let first: Vec<Placement> = canvas.placements().clone();
    assert_eq!(canvas.pack_photos(), Ok(()));
    assert_eq!(canvas.placements(), &first);
}

#[test]
fn segments_stay_within_two_for_each_placement_and_one() {
    let mut canvas = Canvas::new(100, Vec::new());
    let steps = [(10usize, 5u32, 1u32), (30, 5, 2), (50, 5, 3), (70, 5, 4), (90, 5, 5)];
    for (i, (x, w, h)) in steps.iter().enumerate() {
        assert_eq!(canvas.place_photo(photo("p", *w, *h), *x, 0), Ok(()));
        assert_eq!(canvas.skyline().segments().len(), 2 * (i + 1) + 1);
    }
}

#[test]
fn stack_height_is_the_sum_of_heights() {
    let canvas = Canvas::new(10, six_photos());
    assert_eq!(canvas.stack_height(), Some(16));
    assert_eq!(Canvas::new(10, Vec::new()).stack_height(), Some(0));
}

#[test]
fn find_position_takes_the_lowest_then_the_leftmost() {
    let mut canvas = Canvas::new(10, Vec::new());
    assert_eq!(canvas.find_position_for_photo(4), Some((0, 0)));
    assert_eq!(canvas.place_photo(photo("a", 3, 5), 0, 0), Ok(()));
    assert_eq!(canvas.place_photo(photo("b", 3, 2), 3, 0), Ok(()));
    assert_eq!(canvas.find_position_for_photo(4), Some((6, 0)));
    assert_eq!(canvas.find_position_for_photo(5), Some((3, 2)));
    assert_eq!(canvas.find_position_for_photo(8), Some((0, 5)));
    assert_eq!(canvas.find_position_for_photo(10), Some((0, 5)));
    assert_eq!(canvas.find_position_for_photo(11), None);
}

#[test]
fn can_place_photo_at_column_looks_at_width_and_skyline() {
    let mut canvas = Canvas::new(10, Vec::new());
    assert_eq!(canvas.place_photo(photo("a", 3, 5), 2, 0), Ok(()));
    assert!(canvas.can_place_photo_at_column(5, 5, 0));
    assert!(!canvas.can_place_photo_at_column(6, 5, 0));
    assert!(!canvas.can_place_photo_at_column(4, 2, 4));
    assert!(canvas.can_place_photo_at_column(4, 2, 5));
    assert!(canvas.can_place_photo_at_column(0, 2, 0));
    assert!(!canvas.can_place_photo_at_column(0, 3, 0));
    assert!(canvas.can_place_photo_at_column(0, 10, 5));
    assert!(!canvas.can_place_photo_at_column(11, 0, 0));
}

#[test]
fn can_place_photo_also_counts_the_rows() {
    let mut canvas = Canvas::new(10, Vec::new());
    assert_eq!(canvas.place_photo(photo("a", 3, 5), 2, 0), Ok(()));
    assert!(canvas.can_place_photo(&photo("b", 5, 1), 5, 0));
    assert!(!canvas.can_place_photo(&photo("b", 5, 1), 4, 0));
    assert!(canvas.can_place_photo(&photo("b", 5, 1), 4, 5));
    assert!(canvas.can_place_photo(&photo("b", 5, 1), 5, usize::MAX - 1));
    assert!(!canvas.can_place_photo(&photo("b", 5, 2), 5, usize::MAX - 1));
}

#[test]
fn place_photo_records_and_raises() {
    let mut canvas = Canvas::new(10, Vec::new());
    assert_eq!(canvas.place_photo(photo("a", 3, 5), 2, 1), Ok(()));
    assert_eq!(
        canvas.placements(),
        &vec![Placement { photo_id: "a".to_string(), x: 2, y: 1, width: 3, height: 5 }]
    );
    let heights: Vec<(usize, usize, usize)> =
        canvas.skyline().segments().iter().map(|s| (s.x_start, s.x_end, s.height)).collect();
    assert_eq!(heights, vec![(0, 2, 0), (2, 5, 6), (5, 10, 0)]);
}

#[test]
fn place_photo_refuses_what_does_not_fit() {
    let mut canvas = Canvas::new(10, Vec::new());
    assert_eq!(canvas.place_photo(photo("a", 3, 5), 2, 0), Ok(()));
    assert_eq!(
        canvas.place_photo(photo("big", 11, 1), 0, 9),
        Err(PackError::OversizedPhoto { id: "big".to_string() })
    );
    assert_eq!(
        canvas.place_photo(photo("under", 2, 1), 4, 4),
        Err(PackError::InternalInvariantViolation { id: "under".to_string() })
    );
    assert_eq!(
        canvas.place_photo(photo("out", 2, 1), 9, 0),
        Err(PackError::InternalInvariantViolation { id: "out".to_string() })
    );
    assert_eq!(
        canvas.place_photo(photo("high", 2, 2), 0, usize::MAX - 1),
        Err(PackError::InternalInvariantViolation { id: "high".to_string() })
    );
    assert_eq!(canvas.placements().len(), 1);
    assert_eq!(canvas.skyline().segments().len(), 3);
}

#[test]
fn errors_can_be_copied() {
    let error = PackError::OversizedPhoto { id: "x".to_string() };
    assert_eq!(error.clone(), error);
    let other = PackError::InternalInvariantViolation { id: "x".to_string() };
    assert_eq!(other.clone(), other);
    assert_ne!(error, other);
}

fn scan_pack(width: usize, photos: &[Photo]) -> Vec<(String, usize, usize)> {
    let mut sorted: Vec<&Photo> = photos.iter().collect();
    sorted.sort_by_key(|p| std::cmp::Reverse((p.height, p.width)));
    let mut heights = vec![0usize; width];
    let mut placed = Vec::new();
    for p in sorted {
        let w = p.width as usize;
        let mut best: Option<(usize, usize)> = None;
        for x in 0..=width - w {
            let y = heights[x..x + w].iter().copied().max().unwrap_or(0);
            match best {
                Some((_, lowest)) if lowest <= y => {}
                _ => best = Some((x, y)),
            }
        }
        let (x, y) = best.unwrap();
        for h in &mut heights[x..x + w] {
            *h = y + p.height as usize;
        }
        placed.push((p.id.clone(), x, y));
    }
    placed
}

#[test]
fn packings_agree_with_a_scan_of_every_column() {
    let mut state: u64 = 0x9e37_79b9_7f4a_7c15;
    let mut next = |bound: u64| {
        state = state.wrapping_mul(6364136223846793005).wrapping_add(1442695040888963407);
        (state >> 33) % bound
    };
    for round in 0..60u32 {
        let width = 1 + next(40) as u32;
        let count = next(25) as usize;
        let photos: Vec<Photo> = (0..count)
            .map(|i| photo(&format!("photo{}", i), 1 + next(width as u64) as u32, 1 + next(6) as u32))
            .collect();
        let expected = scan_pack(width as usize, &photos);
        let mut canvas = Canvas::new(width, photos);
        assert!(canvas.stack_height().is_some());
        assert_eq!(canvas.pack_photos(), Ok(()), "round {}", round);
        assert_eq!(positions(&canvas), expected);

        let segments = canvas.skyline().segments();
        assert!(photo_packer::skyline::is_tiling(segments, width));
        assert!(segments.len() <= 2 * count + 1);

        let placements = canvas.placements();
        let grid = canvas.layout();
        let rows = placements.iter().map(|p| p.y + p.height as usize).max().unwrap_or(0);
        assert_eq!(grid.len(), rows);
        let mut cells = 0usize;
        for (r, row) in grid.iter().enumerate() {
            assert_eq!(row.len(), width as usize);
            for (c, cell) in row.iter().enumerate() {
                if let Some(i) = cell {
                    let p = &placements[*i];
                    assert!(p.x <= c && c < p.x + p.width as usize);
                    assert!(p.y <= r && r < p.y + p.height as usize);
                    cells += 1;
                }
            }
        }
        let area: usize = placements.iter().map(|p| p.width as usize * p.height as usize).sum();
        assert_eq!(cells, area);
        assert_eq!(photo_packer::grid::materialize(placements, width), Ok(grid));
    }
}

#[test]
fn photos_without_width_or_height_take_no_cell() {
    let mut canvas = Canvas::new(5, vec![photo("line", 0, 3), photo("dot", 2, 0), photo("a", 5, 1)]);
    assert_eq!(canvas.pack_photos(), Ok(()));
    assert_eq!(positions(&canvas), vec![at("line", 0, 0), at("a", 0, 0), at("dot", 0, 1)]);
    let grid = canvas.layout();
    assert_eq!(grid, vec![vec![Some(1); 5], vec![None; 5], vec![None; 5]]);
}

#[test]
fn canvas_without_width_takes_only_photos_without_width() {
    let mut canvas = Canvas::new(0, vec![photo("line", 0, 3)]);
    assert_eq!(canvas.pack_photos(), Ok(()));
    assert_eq!(positions(&canvas), vec![at("line", 0, 0)]);
    let mut canvas = Canvas::new(0, vec![photo("a", 1, 1)]);
    assert_eq!(canvas.pack_photos(), Err(PackError::OversizedPhoto { id: "a".to_string() }));
}
