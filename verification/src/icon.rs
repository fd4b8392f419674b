//! The program's icon, from its file to pixels.

use vstd::prelude::*;

verus! {

/// A picture: its sides in pixels, and four bytes for each pixel.
pub struct Icon {
    pub width: u32,
    pub height: u32,
    pub rgba: Vec<u8>,
}

/// What the `image` crate makes of the bytes of a picture file: its width, its height
/// and its pixels, red, green, blue and alpha one byte each. Nothing where it cannot
/// read them.
pub uninterp spec fn decoded_image(bytes: Seq<u8>) -> Option<(u32, u32, Seq<u8>)>;

/// `image::load_from_memory`, which guesses the format from the bytes and decodes
/// them, with `DynamicImage::to_rgba8` on the outcome. The picture is given by the
/// bytes alone: decoding hooks, which the crate lets a program register, are not
/// registered here. Nothing is said of how many pixels come back.
#[verifier::external_body]
fn decode_image(bytes: &[u8]) -> (r: Option<(u32, u32, Vec<u8>)>)
    ensures
        match r {
            Some((w, h, px)) => decoded_image(bytes@) == Some((w, h, px@)),
            None => decoded_image(bytes@) is None,
        },
{
    let rgba = image::load_from_memory(bytes).ok()?.to_rgba8();
    let (w, h) = rgba.dimensions();
    Some((w, h, rgba.into_raw()))
}

/// A decoded picture as an icon: where there are four bytes for each pixel.
pub open spec fn whole(w: u32, h: u32, px: Seq<u8>) -> bool {
    px.len() == 4 * (w * h)
}

/// The icon that a decoded picture makes: none where nothing was decoded or bytes are
/// missing.
pub fn icon_from(decoded: Option<(u32, u32, Vec<u8>)>) -> (r: Option<Icon>)
    ensures
        match decoded {
            Some((w, h, px)) => if whole(w, h, px@) {
                r is Some && r->0.width == w && r->0.height == h && r->0.rgba == px
            } else {
                r is None
            },
            None => r is None,
        },
{
    match decoded {
        Some((w, h, px)) => {
            let wide: u128 = w as u128;
            let high: u128 = h as u128;
            assert(wide * high <= 0xFFFF_FFFF * 0xFFFF_FFFF) by (nonlinear_arith)
                requires
                    wide <= 0xFFFF_FFFF,
                    high <= 0xFFFF_FFFF,
            ;
            if px.len() as u128 == 4 * (wide * high) {
                Some(Icon { width: w, height: h, rgba: px })
            } else {
                None
            }
        },
        None => None,
    }
}

/// The icon in a picture file.
pub fn load_icon(bytes: &[u8]) -> (r: Option<Icon>)
    ensures
        match decoded_image(bytes@) {
            Some((w, h, px)) => if whole(w, h, px) {
                r is Some && r->0.width == w && r->0.height == h && r->0.rgba@ == px
            } else {
                r is None
            },
            None => r is None,
        },
{
    icon_from(decode_image(bytes))
}

/// A picture is whole where there are four bytes for each of its pixels.
pub proof fn pixels_take_four_bytes(w: u32, h: u32, px: Seq<u8>)
    ensures
        whole(w, h, px) <==> px.len() == w * h * 4,
{
}

/// A picture becomes an icon as it was decoded, where it is whole, and none otherwise.
pub proof fn whole_pictures_become_icons(
    w: u32,
    h: u32,
    px: Vec<u8>,
    r: Option<Icon>,
    nothing: Option<Icon>,
)
    requires
        call_ensures(icon_from, (Some((w, h, px)),), r),
        call_ensures(icon_from, (None,), nothing),
    ensures
        r is Some <==> px@.len() == w * h * 4,
        r is Some ==> r->0.width == w && r->0.height == h && r->0.rgba@ == px@,
        nothing is None,
{
}

/// The icon of a picture file is what decoding it gave, where that is whole.
pub proof fn icon_is_what_was_decoded(bytes: &[u8], r: Option<Icon>)
    requires
        call_ensures(load_icon, (bytes,), r),
    ensures
        r is Some ==> decoded_image(bytes@) == Some((r->0.width, r->0.height, r->0.rgba@))
            && r->0.rgba@.len() == r->0.width * r->0.height * 4,
        r is None && decoded_image(bytes@) is Some ==> ({
            let (w, h, px) = decoded_image(bytes@)->0;
            px.len() != w * h * 4
        }),
        decoded_image(bytes@) is None ==> r is None,
{
}

} // verus!
