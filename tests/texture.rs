use tileable_cloud_noise::{
    rgb_opaque_slice, rgba_slice, TileableCloudNoise, BYTES_PER_CHANNEL, DETAIL_RESOLUTION,
    NUM_CHANNELS, OPAQUE, SHAPE_RESOLUTION,
};

fn coords_texel(s: u32, t: u32, r: u32) -> (u8, u8, u8, u8) {
    (s as u8, t as u8, r as u8, (s * 7 + t * 3 + r) as u8)
}

#[test]
fn rgba_slice_lays_out_rows_then_columns() {
    let slice = rgba_slice(3, 2, coords_texel);
    assert_eq!(slice.len(), 3 * 3 * 4);
    for t in 0..3u32 {
        for r in 0..3u32 {
            let at = ((t * 3 + r) * 4) as usize;
            let (a, b, c, d) = coords_texel(2, t, r);
            assert_eq!(&slice[at..at + 4], &[a, b, c, d]);
        }
    }
    assert_eq!(&slice[4..8], &[2, 0, 1, 15]);
    assert_eq!(&slice[12..16], &[2, 1, 0, 17]);
}

#[test]
fn rgba_slice_of_empty_cube_is_empty() {
    assert!(rgba_slice(0, 0, coords_texel).is_empty());
}

#[test]
fn rgb_opaque_slice_keeps_colour_and_sets_full_alpha() {
    let slice = rgb_opaque_slice(2, 1, |s: u32, t: u32, r: u32| (s as u8, 10 + t as u8, 20 + r as u8));
    assert_eq!(
        slice,
        vec![1, 10, 20, 255, 1, 10, 21, 255, 1, 11, 20, 255, 1, 11, 21, 255]
    );
}

#[test]
fn from_slices_joins_in_index_order() {
    let slices: Vec<Vec<u8>> = (0..2u32).map(|s| rgba_slice(2, s, coords_texel)).collect();
    let expected: Vec<u8> = slices.concat();
    let texture = TileableCloudNoise::from_slices(2, slices).unwrap();
    assert_eq!(texture.resolution, 2);
    assert_eq!(texture.num_channels, 4);
    assert_eq!(texture.bytes_per_channel, 1);
    assert_eq!(texture.data, expected);
    assert_eq!(&texture.data[16..20], &[1, 0, 0, 7]);
}

#[test]
fn from_slices_refuses_wrong_slice_count() {
    let slices: Vec<Vec<u8>> = (0..2u32).map(|s| rgba_slice(3, s, coords_texel)).collect();
    assert!(TileableCloudNoise::from_slices(3, slices).is_none());
}

#[test]
fn from_slices_refuses_wrong_slice_length() {
    let mut slices: Vec<Vec<u8>> = (0..2u32).map(|s| rgba_slice(2, s, coords_texel)).collect();
    slices[1].push(0);
    assert!(TileableCloudNoise::from_slices(2, slices).is_none());
}

#[test]
fn from_slices_refuses_too_many_slices() {
    let slices: Vec<Vec<u8>> = (0..3u32).map(|s| rgba_slice(2, s, coords_texel)).collect();
    assert!(TileableCloudNoise::from_slices(2, slices).is_none());
}

#[test]
fn from_slices_of_empty_cube() {
    let texture = TileableCloudNoise::from_slices(0, Vec::new()).unwrap();
    assert!(texture.data.is_empty());
    assert_eq!(texture.resolution, 0);
}

#[test]
fn shape_texture_has_one_rgba_byte_per_channel_of_every_texel() {
    let res = SHAPE_RESOLUTION;
    let slices: Vec<Vec<u8>> = (0..res).map(|s| rgba_slice(res, s, coords_texel)).collect();
    let texture = TileableCloudNoise::from_slices(res, slices).unwrap();
    assert_eq!(texture.data.len(), 128 * 128 * 128 * 4);
    assert_eq!(texture.resolution, 128);
    assert_eq!(texture.num_channels, NUM_CHANNELS);
    assert_eq!(texture.bytes_per_channel, BYTES_PER_CHANNEL);
    let (s, t, r) = (5u32, 17u32, 99u32);
    let at = (((s * res + t) * res + r) * 4) as usize;
    let (a, b, c, d) = coords_texel(s, t, r);
    assert_eq!(&texture.data[at..at + 4], &[a, b, c, d]);
}

#[test]
fn detail_texture_is_sized_and_fully_opaque() {
    let res = DETAIL_RESOLUTION;
    let slices: Vec<Vec<u8>> = (0..res)
        .map(|s| rgb_opaque_slice(res, s, |s: u32, t: u32, r: u32| (s as u8, t as u8, r as u8)))
        .collect();
    let texture = TileableCloudNoise::from_slices(res, slices).unwrap();
    assert_eq!(texture.data.len(), 32 * 32 * 32 * 4);
    assert!(texture.data.chunks(4).all(|texel| texel[3] == OPAQUE));
    assert_eq!(OPAQUE, 255);
    let at = (((3 * res + 4) * res + 5) * 4) as usize;
    assert_eq!(&texture.data[at..at + 4], &[3, 4, 5, 255]);
}
