use aether::column_light::{ColumnLight, ColumnMedium};
use aether::light::{compute_light, light_volume, FullBright, LightMedium, LightView, LightVolume};

struct Scene {
    w: usize,
    h: usize,
    d: usize,
    opaque: Vec<bool>,
    emission: Vec<u8>,
}

impl Scene {
    fn new(w: usize, h: usize, d: usize) -> Self {
        Self {
            w,
            h,
            d,
            opaque: vec![false; w * h * d],
            emission: vec![0; w * h * d],
        }
    }
    fn idx(&self, x: usize, y: usize, z: usize) -> usize {
        (y * self.d + z) * self.w + x
    }
    fn set_opaque(&mut self, x: usize, y: usize, z: usize) {
        let i = self.idx(x, y, z);
        self.opaque[i] = true;
    }
    fn set_emission(&mut self, x: usize, y: usize, z: usize, e: u8) {
        let i = self.idx(x, y, z);
        self.emission[i] = e;
    }
}

impl LightMedium for Scene {
    fn dims(&self) -> (usize, usize, usize) {
        (self.w, self.h, self.d)
    }
    fn opaque(&self, x: usize, y: usize, z: usize) -> bool {
        self.opaque[self.idx(x, y, z)]
    }
    fn emission(&self, x: usize, y: usize, z: usize) -> u8 {
        self.emission[self.idx(x, y, z)]
    }
}

#[test]
fn full_bright_is_always_max() {
    let l = FullBright;
    assert_eq!(l.block_light(0, 0, 0), 15);
    assert_eq!(l.sky_light(-100, 200, 40), 15);
}

#[test]
fn torch_radiates_and_attenuates() {
    let mut s = Scene::new(9, 1, 9);
    s.set_emission(4, 0, 4, 14);
    let g = compute_light(&s);
    assert_eq!(g.block_light(4, 0, 4), 14, "torch cell");
    assert_eq!(g.block_light(5, 0, 4), 13);
    assert_eq!(g.block_light(4, 0, 6), 12);
    assert_eq!(g.block_light(0, 0, 4), 10);
    assert_eq!(g.block_light(0, 0, 0), 6);
}

#[test]
fn opaque_wall_casts_a_block_light_shadow() {
    let mut s = Scene::new(5, 1, 3);
    s.set_emission(0, 0, 1, 14);
    for z in 0..3 {
        s.set_opaque(1, 0, z);
    }
    let g = compute_light(&s);
    assert_eq!(g.block_light(1, 0, 1), 0, "wall interior stays dark");
    assert!(g.block_light(2, 0, 1) < 12);
}

#[test]
fn sky_light_falls_straight_down_without_attenuation() {
    let s = Scene::new(1, 8, 1);
    let g = compute_light(&s);
    for y in 0..8 {
        assert_eq!(g.sky_light(0, y, 0), 15, "y={y}");
    }
}

#[test]
fn sky_light_is_blocked_below_a_ceiling() {
    let mut s = Scene::new(1, 4, 1);
    s.set_opaque(0, 3, 0);
    let g = compute_light(&s);
    assert_eq!(g.sky_light(0, 3, 0), 0, "opaque ceiling itself unlit");
    for y in 0..3 {
        assert_eq!(g.sky_light(0, y, 0), 0, "shadowed under ceiling y={y}");
    }
}

#[test]
fn sky_light_spreads_under_an_overhang() {
    let w = 4;
    let h = 3;
    let mut s = Scene::new(w, h, 1);
    s.set_opaque(0, h - 1, 0);
    s.set_opaque(1, h - 1, 0);
    let g = compute_light(&s);
    assert_eq!(g.sky_light(2, 0, 0), 15);
    assert_eq!(g.sky_light(1, 0, 0), 14);
    assert_eq!(g.sky_light(0, 0, 0), 13);
}

#[test]
fn opaque_emitter_still_lights_neighbours() {
    let mut s = Scene::new(3, 1, 1);
    s.set_opaque(1, 0, 0);
    s.set_emission(1, 0, 0, 15);
    let g = compute_light(&s);
    assert_eq!(g.block_light(1, 0, 0), 15, "emitter cell");
    assert_eq!(g.block_light(0, 0, 0), 14, "transparent neighbour lit");
    assert_eq!(g.block_light(2, 0, 0), 14);
}

#[test]
fn brightest_of_two_torches_wins() {
    let mut s = Scene::new(11, 1, 1);
    s.set_emission(0, 0, 0, 14);
    s.set_emission(10, 0, 0, 14);
    let g = compute_light(&s);
    assert_eq!(g.block_light(5, 0, 0), 9);
    assert_eq!(g.block_light(1, 0, 0), 13);
}

#[test]
fn degenerate_dims_do_not_panic() {
    let s = Scene::new(0, 4, 4);
    let g = compute_light(&s);
    assert_eq!(g.dims(), (0, 4, 4));
}

#[test]
fn empty_scene_has_full_sky_and_no_block_light() {
    let s = Scene::new(4, 4, 4);
    let g = compute_light(&s);
    for y in 0..4 {
        for z in 0..4 {
            for x in 0..4 {
                assert_eq!(g.sky_light(x, y, z), 15);
                assert_eq!(g.block_light(x, y, z), 0);
                assert_eq!(g.combined_light(x, y, z), 15);
            }
        }
    }
}

#[test]
fn overbright_emission_is_capped() {
    let mut s = Scene::new(3, 1, 1);
    s.set_emission(0, 0, 0, 200);
    let g = compute_light(&s);
    assert_eq!(g.block_light(0, 0, 0), 15);
    assert_eq!(g.block_light(2, 0, 0), 13);
    assert_eq!(g.clone(), g);
}

#[test]
fn column_light_answers_in_world_coordinates() {
    let mut m = ColumnMedium::new(16, 4, 16);
    m.set(3, 3, 5, true, 0);
    m.set(8, 0, 8, false, 14);
    let light = ColumnLight::new(-1, 2, 60, &m);
    assert_eq!(light.column(), (-1, 2));
    assert_eq!(light.base_y(), 60);
    // World (-16 + 8, 60, 32 + 8) is the emitter.
    assert_eq!(light.block_light(-8, 60, 40), 14);
    assert_eq!(light.block_light(-7, 60, 40), 13);
    // Outside the footprint: dark block light, sky by band.
    assert_eq!(light.block_light(0, 60, 40), 0);
    assert_eq!(light.sky_light(1000, 100, 0), 15);
    assert_eq!(light.sky_light(1000, 10, 0), 0);
    // Under the opaque block the column is shaded, one step in from open sky.
    assert_eq!(light.sky_light(-13, 62, 37), 14);
    assert_eq!(light.sky_light(-13, 63, 37), 0);
    let copy = light.clone();
    assert_eq!(copy.sky_light(-13, 62, 37), 14);
}

#[test]
fn light_volume_snapshot_matches_medium() {
    let mut v = LightVolume::new(5, 2, 1);
    v.set(0, 0, 0, false, 10);
    v.set(2, 1, 0, true, 0);
    let g = light_volume(&v);
    assert_eq!(g.dims(), (5, 2, 1));
    assert_eq!(g.block_light(0, 0, 0), 10);
    assert_eq!(g.block_light(4, 0, 0), 6);
    assert_eq!(g.block_light(2, 1, 0), 0);
    assert_eq!(g.sky_light(2, 1, 0), 0);
    assert_eq!(g.sky_light(2, 0, 0), 14);
    let again = compute_light(&v);
    assert_eq!(again, g);
}
