use lib::geometry::WorldDimension;
use lib::lithosphere::{choose_plate_seeds, create_plate_areas, validate_config, PlateArea, PlatecError};
use lib::random::SimpleRandom;

#[test]
fn simple_random_matches_original_sequence() {
    let mut random = SimpleRandom::new(3);
    let scale = SimpleRandom::maximum() as f32;

    assert!((random.next_u32() as f32 / scale - 5.1118433e-05).abs() <= f32::EPSILON);
    assert!((random.next_u32() as f32 / scale - 0.53070194).abs() <= f32::EPSILON);
    assert!((random.next_u32() as f32 / scale - 0.053402752).abs() <= f32::EPSILON);
    assert_eq!(SimpleRandom::maximum(), u32::MAX);
}

#[test]
fn lithosphere_rejects_too_small_dimensions() {
    assert!(validate_config(4, 5, 10).is_err());
}

#[test]
fn lithosphere_creates_requested_plates_and_assigns_every_tile() {
    let dimensions = WorldDimension::new(64, 48);
    let mut imap = vec![0u32; 64 * 48];
    let mut areas = vec![PlateArea::default(); 10];
    let mut random = SimpleRandom::new(3);

    assert_eq!(validate_config(64, 48, 10), Ok(()));
    create_plate_areas(&mut imap, &mut areas, &mut random, dimensions, 10);

    assert_eq!(areas.len(), 10);
    assert!(imap.iter().all(|id| *id < 10));
    for plate in 0..10u32 {
        assert!(imap.iter().any(|id| *id == plate));
    }
}

#[test]
fn config_errors_name_the_first_failed_check() {
    assert_eq!(validate_config(4, 5, 10), Err(PlatecError::DimensionsTooSmall));
    assert_eq!(validate_config(5, 4, 0), Err(PlatecError::DimensionsTooSmall));
    assert_eq!(validate_config(5, 5, 0), Err(PlatecError::ZeroPlates));
    assert_eq!(validate_config(5, 5, 1), Ok(()));
}

#[test]
fn random_sequence_follows_the_linear_congruence() {
    let mut random = SimpleRandom::new(3);
    assert_eq!(random.next_u32(), 219_552);
    let expected = 69_069u32.wrapping_mul(219_552).wrapping_add(12_345);
    assert_eq!(random.next_u32(), expected);
    let mut zero = SimpleRandom::new(0);
    assert_eq!(zero.next_u32(), 12_345);
}

#[test]
fn every_tile_lies_in_the_box_of_its_plate() {
    let dimensions = WorldDimension::new(64, 48);
    let mut imap = vec![0u32; 64 * 48];
    let mut areas: Vec<PlateArea> = (0..10).map(|_| PlateArea::default()).collect();
    let mut random = SimpleRandom::new(3);
    create_plate_areas(&mut imap, &mut areas, &mut random, dimensions, 10);
    let offset = |x: u32, start: u32, size: u32| if x >= start { x - start } else { x + size - start };
    for (c, plate) in imap.iter().enumerate() {
        let a = &areas[*plate as usize];
        let (x, y) = (c as u32 % 64, c as u32 / 64);
        assert!(offset(x, a.left, 64) < a.width);
        assert!(offset(y, a.top, 48) < a.height);
    }
    for a in &areas {
        assert!(a.width >= 1 && a.height >= 1);
        if a.width <= 64 {
            assert_eq!(offset(a.right, a.left, 64), a.width - 1);
        }
        if a.height <= 48 {
            assert_eq!(offset(a.bottom, a.top, 48), a.height - 1);
        }
    }
}

#[test]
fn generators_from_one_seed_draw_alike() {
    let mut a = SimpleRandom::new(77);
    let mut b = SimpleRandom::new(77);
    for _ in 0..100 {
        assert_eq!(a.next_u32(), b.next_u32());
    }
}

#[test]
fn seeds_follow_the_pool_draws() {
    let dimensions = WorldDimension::new(5, 5);
    let mut imap = vec![0u32; 25];
    let mut areas = vec![PlateArea::default(); 6];
    let mut random = SimpleRandom::new(3);
    choose_plate_seeds(&mut imap, &mut areas, &mut random, dimensions, 6);
    let mut model = SimpleRandom::new(3);
    let mut pool: Vec<u32> = (0..25).collect();
    for (t, area) in areas.iter().enumerate() {
        let t = t as u32;
        let p = pool[(model.next_u32() % (25 - t)) as usize];
        pool[p as usize] = pool[(25 - t - 1) as usize];
        assert_eq!(area.border, vec![p]);
        assert_eq!((area.left, area.top, area.width, area.height), (p % 5, p / 5, 1, 1));
    }
    assert_eq!(random, model);
    assert!(imap.iter().all(|c| *c == u32::MAX));
}

#[test]
fn every_tile_is_joined_to_its_plate_seed() {
    let dimensions = WorldDimension::new(64, 48);
    let mut imap = vec![0u32; 64 * 48];
    let mut areas = vec![PlateArea::default(); 10];
    let mut random = SimpleRandom::new(3);
    let mut seeds_random = SimpleRandom::new(3);
    let mut seed_map = vec![0u32; 64 * 48];
    let mut seed_areas = vec![PlateArea::default(); 10];
    choose_plate_seeds(&mut seed_map, &mut seed_areas, &mut seeds_random, dimensions, 10);
    create_plate_areas(&mut imap, &mut areas, &mut random, dimensions, 10);
    let (w, h) = (64usize, 48usize);
    for plate in 0..10u32 {
        let seed = seed_areas[plate as usize].border[0] as usize;
        let mut seen = vec![false; w * h];
        let mut stack = vec![seed];
        seen[seed] = true;
        while let Some(c) = stack.pop() {
            let (x, y) = (c % w, c / w);
            let next = [
                ((y + h - 1) % h) * w + x,
                ((y + 1) % h) * w + x,
                y * w + (x + w - 1) % w,
                y * w + (x + 1) % w,
            ];
            for n in next {
                if !seen[n] && imap[n] == plate {
                    seen[n] = true;
                    stack.push(n);
                }
            }
        }
        for c in 0..w * h {
            if imap[c] == plate {
                assert!(seen[c]);
            }
        }
    }
}

#[test]
fn seeds_can_repeat_as_the_pool_is_rewritten_at_the_seed() {
    let dimensions = WorldDimension::new(5, 5);
    let mut imap = vec![0u32; 25];
    let mut areas = vec![PlateArea::default(); 10];
    let mut random = SimpleRandom::new(4);
    choose_plate_seeds(&mut imap, &mut areas, &mut random, dimensions, 10);
    let seeds: Vec<u32> = areas.iter().map(|a| a.border[0]).collect();
    assert_eq!(seeds, vec![21, 2, 15, 23, 23, 10, 23, 0, 3, 19]);
}
