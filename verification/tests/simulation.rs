use falling_sand::world::{Particle, World};

/// Paints every cell of the world with `p`, through the pixel-mapped setter.
fn fill(world: &mut World, width: u32, height: u32, scale: u32, p: Particle) {
    for x in 0..width {
        for y in 0..height {
            world.setat((x * scale, y * scale), p);
        }
    }
}

/// Counts the `Dirt` cells of the current generation.
fn count_dirt(world: &World, width: u32, height: u32) -> u32 {
    let mut count = 0;
    for x in 0..width {
        for y in 0..height {
            if world.get((x, y)) == Some(Particle::Dirt) {
                count += 1;
            }
        }
    }
    count
}

#[test]
fn new_has_requested_dimensions() {
    let world = World::new((3, 2), 1);
    assert!(world.get((0, 0)).is_some());
    assert!(world.get((2, 1)).is_some());
    assert_eq!(world.get((3, 0)), None);
    assert_eq!(world.get((0, 2)), None);
    assert_eq!(world.get((3, 2)), None);
}

#[test]
fn paint_maps_pixel_to_cell() {
    // With scale 4, painting pixel (5, 9) must set logical cell (1, 2).
    let mut world = World::new((4, 4), 4);
    fill(&mut world, 4, 4, 4, Particle::Air);
    world.setat((5, 9), Particle::Dirt);
    for x in 0..4 {
        for y in 0..4 {
            let expected = if (x, y) == (1, 2) { Particle::Dirt } else { Particle::Air };
            assert_eq!(world.get((x, y)), Some(expected));
        }
    }
}

#[test]
fn single_fall_moves_one_row() {
    // A lone particle with air below falls exactly one row per step.
    let mut world = World::new((3, 5), 1);
    fill(&mut world, 3, 5, 1, Particle::Air);
    world.setat((1, 1), Particle::Dirt);

    world.update();
    assert_eq!(world.get((1, 1)), Some(Particle::Air));
    assert_eq!(world.get((1, 2)), Some(Particle::Dirt));
    assert_eq!(count_dirt(&world, 3, 5), 1);

    world.update();
    assert_eq!(world.get((1, 2)), Some(Particle::Air));
    assert_eq!(world.get((1, 3)), Some(Particle::Dirt));
    assert_eq!(count_dirt(&world, 3, 5), 1);
}

#[test]
fn floor_particle_stays() {
    // The bottom row is a solid floor: a particle there never moves.
    let mut world = World::new((2, 3), 1);
    fill(&mut world, 2, 3, 1, Particle::Air);
    world.setat((0, 2), Particle::Dirt);
    for _ in 0..5 {
        world.update();
        assert_eq!(world.get((0, 2)), Some(Particle::Dirt));
        assert_eq!(count_dirt(&world, 2, 3), 1);
    }
}

#[test]
fn blocked_particle_settles() {
    // A particle with another directly below it stays in place.
    let mut world = World::new((1, 2), 1);
    fill(&mut world, 1, 2, 1, Particle::Air);
    world.setat((0, 0), Particle::Dirt);
    world.setat((0, 1), Particle::Dirt);
    world.update();
    assert_eq!(world.get((0, 0)), Some(Particle::Dirt));
    assert_eq!(world.get((0, 1)), Some(Particle::Dirt));
}

#[test]
fn mass_conserved_after_step() {
    // Stepping neither creates nor destroys particles, from a random seed.
    let mut world = World::new((8, 8), 1);
    let mut before = count_dirt(&world, 8, 8);
    for _ in 0..10 {
        world.update();
        let after = count_dirt(&world, 8, 8);
        assert_eq!(after, before);
        before = after;
    }
}

#[test]
fn collision_column_keeps_both_particles() {
    // Two particles in one column with a single empty row between them:
    // the upper one falls into the gap while the lower one, resting on the
    // floor, stays put. Destinations stay distinct and mass is conserved.
    let mut world = World::new((1, 4), 1);
    fill(&mut world, 1, 4, 1, Particle::Air);
    world.setat((0, 1), Particle::Dirt);
    world.setat((0, 3), Particle::Dirt);
    world.update();
    assert_eq!(world.get((0, 0)), Some(Particle::Air));
    assert_eq!(world.get((0, 1)), Some(Particle::Air));
    assert_eq!(world.get((0, 2)), Some(Particle::Dirt));
    assert_eq!(world.get((0, 3)), Some(Particle::Dirt));
}

#[test]
fn update_swaps_generations() {
    // After a step the previous generation is exactly the pre-step grid.
    let mut world = World::new((2, 2), 1);
    fill(&mut world, 2, 2, 1, Particle::Air);
    world.setat((1, 0), Particle::Dirt);
    world.update();
    assert_eq!(world.get_old((1, 0)), Some(Particle::Dirt));
    assert_eq!(world.get_old((0, 0)), Some(Particle::Air));
    assert_eq!(world.get_old((0, 1)), Some(Particle::Air));
    assert_eq!(world.get_old((1, 1)), Some(Particle::Air));
    // The particle itself has fallen to the bottom row.
    assert_eq!(world.get((1, 1)), Some(Particle::Dirt));
}

#[test]
fn rasterize_writes_exact_colors() {
    // Air is white, dirt is the fixed sand color, 4 bytes per pixel.
    let mut world = World::new((2, 1), 1);
    fill(&mut world, 2, 1, 1, Particle::Air);
    world.setat((1, 0), Particle::Dirt);
    let mut frame = vec![0u8; 2 * 1 * 4];
    world.draw(&mut frame);
    assert_eq!(&frame[0..4], &[0xff, 0xff, 0xff, 0xff]);
    assert_eq!(&frame[4..8], &[0xef, 0xb4, 0x59, 0xff]);
}

#[test]
fn rasterize_upscales_by_scale() {
    // With scale 2 a single dirt cell covers a 2x2 pixel block.
    let mut world = World::new((2, 2), 2);
    fill(&mut world, 2, 2, 2, Particle::Air);
    world.setat((0, 0), Particle::Dirt);
    let mut frame = vec![0u8; 4 * 4 * 4];
    world.draw(&mut frame);
    let dirt = [0xef, 0xb4, 0x59, 0xff];
    let air = [0xff, 0xff, 0xff, 0xff];
    for py in 0..4u32 {
        for px in 0..4u32 {
            let i = (py * 4 + px) as usize * 4;
            let expected: [u8; 4] = if px < 2 && py < 2 { dirt } else { air };
            assert_eq!(&frame[i..i + 4], &expected);
        }
    }
}

#[test]
fn rasterize_is_idempotent() {
    // Two draws without an intervening step or paint are byte-identical.
    let world = World::new((4, 3), 2);
    let len = 4 * 2 * 3 * 2 * 4;
    let mut first = vec![0u8; len];
    let mut second = vec![1u8; len];
    world.draw(&mut first);
    world.draw(&mut second);
    assert_eq!(first, second);
}

#[test]
fn identical_histories_rasterize_identically() {
    // Same starting grid and same paint/step sequence give the same bytes.
    let mut a = World::new((4, 4), 1);
    let mut b = World::new((4, 4), 1);
    fill(&mut a, 4, 4, 1, Particle::Air);
    fill(&mut b, 4, 4, 1, Particle::Air);
    for world in [&mut a, &mut b] {
        world.setat((0, 0), Particle::Dirt);
        world.setat((2, 1), Particle::Dirt);
        world.setat((2, 2), Particle::Dirt);
        world.update();
        world.setat((3, 0), Particle::Dirt);
        world.update();
        world.update();
    }
    let len = 4 * 4 * 4;
    let mut fa = vec![0u8; len];
    let mut fb = vec![1u8; len];
    a.draw(&mut fa);
    b.draw(&mut fb);
    assert_eq!(fa, fb);
}
