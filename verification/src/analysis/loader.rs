//! # Image Loading
//!
//! Decodes image files into RGBA frames: every frame of an animated GIF, or
//! a single image from any format the decoders know, trying the guessed
//! format first and then each known format in turn.
use vstd::prelude::*;
use vstd::string::*;
use image::AnimationDecoder;
use image::ImageFormat as Codec;
use crate::analysis::pixels::{ImageView, RgbaImage};
use self::ImageFormat::{Avif, Bmp, Dds, Farbfeld, Gif, Hdr, Ico, Jpeg, OpenExr, Png, Pnm, Qoi, Tga, Tiff, WebP};

verus! {

/// The image formats the decoders know: those tried in turn when the
/// guessed format fails, then those that can only be guessed from a signature.
#[derive(Clone, Copy, Debug, PartialEq, Eq, Structural)]
pub enum ImageFormat {
    Png,
    Jpeg,
    Gif,
    Bmp,
    Ico,
    Tiff,
    WebP,
    Pnm,
    Tga,
    Dds,
    Hdr,
    Avif,
    OpenExr,
    Qoi,
    Farbfeld,
}

/// Why no frame could be loaded.
#[derive(Clone, Copy, Debug, PartialEq, Eq, Structural)]
pub enum LoadError {
    /// No decoder could read the bytes.
    UnrecognizedFormat,
}

impl LoadError {
    /// The message shown for the error.
    pub fn message(&self) -> (s: String)
        ensures
            s@ == "Unrecognized image format. Stegsolve-rs tried all decoders but failed."@,
    {
        String::from_str("Unrecognized image format. Stegsolve-rs tried all decoders but failed.")
    }
}

/// The format that `image::guess_format` finds from the signature at the
/// start of `bytes`; none when no signature of its table matches.
pub uninterp spec fn guessed_format(bytes: Seq<u8>) -> Option<ImageFormat>;

/// What `image::load_from_memory_with_format` decodes from `bytes` as
/// `format`, converted to RGBA with eight bits per channel.
pub uninterp spec fn decoded_image_as(bytes: Seq<u8>, format: ImageFormat) -> Option<(u32, u32, Seq<u8>)>;

/// Whether `image`'s GIF decoder accepts the start of `bytes`.
pub uninterp spec fn gif_decoder_opens(bytes: Seq<u8>) -> bool;

/// Item `k` (from 0) of the frame iterator of `image`'s GIF decoder over
/// `bytes`: `None` once the iterator has ended, `Some(None)` for a frame that
/// failed, `Some(Some(frame))` for a frame's width, height and RGBA bytes.
pub uninterp spec fn gif_item(bytes: Seq<u8>, k: nat) -> Option<Option<(u32, u32, Seq<u8>)>>;

/// The bytes that the GIF frame iterator `frames` decodes.
pub uninterp spec fn frames_source(frames: image::Frames) -> Seq<u8>;

/// How many items the GIF frame iterator `frames` has yielded.
pub uninterp spec fn frames_taken(frames: image::Frames) -> nat;

/// Whether `bytes` begin with the GIF signature `GIF89a` or `GIF87a`.
pub open spec fn has_gif_signature(bytes: Seq<u8>) -> bool {
    &&& bytes.len() >= 6
    &&& (bytes.take(6) == seq![0x47u8, 0x49, 0x46, 0x38, 0x39, 0x61] || bytes.take(6) == seq![
        0x47u8,
        0x49,
        0x46,
        0x38,
        0x37,
        0x61,
    ])
}

/// Calls `image::guess_format`, which compares the start of `bytes` with its
/// fixed table of signatures (it consults no hooks). Claimed: the result
/// depends on the bytes alone (the name `guessed_format`), and it is GIF
/// exactly when the bytes begin with `GIF89a` or `GIF87a`, the table's two GIF
/// entries (the entries tried before them, PNG and JPEG, cannot match such
/// bytes).
#[verifier::external_body]
fn guess_image_format(bytes: &[u8]) -> (format: Option<ImageFormat>)
    ensures
        format == guessed_format(bytes@),
        (format == Some(ImageFormat::Gif)) == has_gif_signature(bytes@),
{
    match image::guess_format(bytes) {
        Ok(Codec::Png) => Some(Png), Ok(Codec::Jpeg) => Some(Jpeg), Ok(Codec::Gif) => Some(Gif),
        Ok(Codec::Bmp) => Some(Bmp), Ok(Codec::Ico) => Some(Ico), Ok(Codec::Tiff) => Some(Tiff),
        Ok(Codec::WebP) => Some(WebP), Ok(Codec::Pnm) => Some(Pnm), Ok(Codec::Tga) => Some(Tga),
        Ok(Codec::Dds) => Some(Dds), Ok(Codec::Hdr) => Some(Hdr), Ok(Codec::Avif) => Some(Avif),
        Ok(Codec::OpenExr) => Some(OpenExr), Ok(Codec::Qoi) => Some(Qoi),
        Ok(Codec::Farbfeld) => Some(Farbfeld), _ => None,
    }
}

/// Calls `image::load_from_memory_with_format` with the `image` format of the
/// same name and converts the decoded image with `DynamicImage::to_rgba8`.
/// Claimed: the result depends on the bytes and the format alone (the name
/// `decoded_image_as`); what the decoders produce is not described.
#[verifier::external_body]
fn decode_image_as(bytes: &[u8], format: ImageFormat) -> (res: Option<(u32, u32, Vec<u8>)>)
    ensures
        res.deep_view() == decoded_image_as(bytes@, format),
{
    let codec = match format {
        Png => Codec::Png, Jpeg => Codec::Jpeg, Gif => Codec::Gif, Bmp => Codec::Bmp, Ico => Codec::Ico,
        Tiff => Codec::Tiff, WebP => Codec::WebP, Pnm => Codec::Pnm, Tga => Codec::Tga, Dds => Codec::Dds,
        Hdr => Codec::Hdr, Avif => Codec::Avif, OpenExr => Codec::OpenExr, Qoi => Codec::Qoi,
        Farbfeld => Codec::Farbfeld,
    };
    match image::load_from_memory_with_format(bytes, codec) {
        Ok(img) => {
            let buf = img.to_rgba8();
            Some((buf.width(), buf.height(), buf.into_raw()))
        },
        Err(_) => None,
    }
}

/// `image`'s iterator over the frames of an animation, held opaque.
#[verifier::external_type_specification]
#[verifier::external_body]
pub struct ExFrames<'a>(image::Frames<'a>);

/// One frame of an animation, the iterator's item, held opaque.
#[verifier::external_type_specification]
#[verifier::external_body]
pub struct ExFrame(image::Frame);

/// `image`'s error, the iterator's failed item, held opaque.
#[verifier::external_type_specification]
#[verifier::external_body]
pub struct ExImageError(image::ImageError);

/// Creates `image::codecs::gif::GifDecoder` over `bytes` and turns it into
/// its frame iterator with `AnimationDecoder::into_frames`. Claimed: whether
/// the decoder can be created depends on the bytes alone (the name
/// `gif_decoder_opens`), and the iterator reads `bytes` and has yielded
/// nothing yet.
#[verifier::external_body]
fn open_gif_frames<'a>(bytes: &'a [u8]) -> (frames: Option<image::Frames<'a>>)
    ensures
        frames is Some == gif_decoder_opens(bytes@),
        frames matches Some(f) ==> frames_source(f) == bytes@ && frames_taken(f) == 0,
{
    match image::codecs::gif::GifDecoder::new(std::io::Cursor::new(bytes)) {
        Ok(decoder) => Some(decoder.into_frames()),
        Err(_) => None,
    }
}

/// Takes the next item of a GIF frame iterator with `Iterator::next`, a frame
/// turned by `Frame::into_buffer` into its width, height and bytes, a failed
/// frame into `None`. Claimed: item `k` of the iterator over given bytes is
/// always the same (the name `gif_item`); what the frames hold is not
/// described.
#[verifier::external_body]
fn next_gif_item(frames: &mut image::Frames<'_>) -> (item: Option<Option<(u32, u32, Vec<u8>)>>)
    ensures
        item.deep_view() == gif_item(frames_source(*old(frames)), frames_taken(*old(frames))),
        frames_source(*final(frames)) == frames_source(*old(frames)),
        frames_taken(*final(frames)) == frames_taken(*old(frames)) + 1,
{
    match frames.next() {
        Some(Ok(frame)) => {
            let buf = frame.into_buffer();
            Some(Some((buf.width(), buf.height(), buf.into_raw())))
        },
        Some(Err(_)) => Some(None),
        None => None,
    }
}

/// The frames among at most `n` items of the GIF frame iterator over `bytes`,
/// from item `k` on, in order: a failed frame is passed over, and reading
/// stops where the iterator ends.
pub open spec fn gif_frames_from(bytes: Seq<u8>, k: nat, n: nat) -> Seq<(u32, u32, Seq<u8>)>
    decreases n,
{
    if n == 0 {
        Seq::empty()
    } else {
        match gif_item(bytes, k) {
            None => Seq::empty(),
            Some(None) => gif_frames_from(bytes, k + 1, (n - 1) as nat),
            Some(Some(frame)) => seq![frame] + gif_frames_from(bytes, k + 1, (n - 1) as nat),
        }
    }
}

/// The frames read from a GIF: at most one item of the frame iterator per
/// byte of input; none when the decoder cannot be created.
pub open spec fn gif_frames(bytes: Seq<u8>) -> Seq<(u32, u32, Seq<u8>)> {
    if gif_decoder_opens(bytes) {
        gif_frames_from(bytes, 0, bytes.len())
    } else {
        Seq::empty()
    }
}

/// Reads the frames of a GIF from `image`'s frame iterator, in order. A frame
/// that fails is passed over and the next one read; reading stops where the
/// iterator ends, and after at most one item per byte of input. A GIF frame
/// takes more than one byte, so the limit only cuts off an iterator that
/// reports the same failure again and again, as it does on a file cut short.
pub fn read_gif_frames(bytes: &[u8]) -> (frames: Vec<(u32, u32, Vec<u8>)>)
    ensures
        frames.deep_view() == gif_frames(bytes@),
{
    let mut out: Vec<(u32, u32, Vec<u8>)> = Vec::new();
    let opened = open_gif_frames(bytes);
    if opened.is_none() {
        assert(out.deep_view() =~= Seq::<(u32, u32, Seq<u8>)>::empty());
        return out;
    }
    let mut frames = opened.unwrap();
    let len = bytes.len();
    let mut k: usize = 0;
    assert(out.deep_view() =~= Seq::<(u32, u32, Seq<u8>)>::empty());
    while k < len
        invariant_except_break
            k <= len,
            len == bytes@.len(),
            frames_source(frames) == bytes@,
            frames_taken(frames) == k,
            gif_decoder_opens(bytes@),
            gif_frames(bytes@) == out.deep_view() + gif_frames_from(bytes@, k as nat, (len - k) as nat),
        ensures
            gif_frames(bytes@) == out.deep_view(),
        decreases len - k,
    {
        let ghost before = out.deep_view();
        let item = next_gif_item(&mut frames);
        match item {
            None => {
                assert(before + Seq::<(u32, u32, Seq<u8>)>::empty() =~= before);
                break;
            },
            Some(None) => {},
            Some(Some(frame)) => {
                let ghost f = frame.deep_view();
                out.push(frame);
                assert(out.deep_view() =~= before.push(f));
                assert(before.push(f) + gif_frames_from(bytes@, (k + 1) as nat, (len - k - 1) as nat) =~= before + (
                seq![f] + gif_frames_from(bytes@, (k + 1) as nat, (len - k - 1) as nat)));
            },
        }
        k = k + 1;
    }
    if k == len {
        assert(out.deep_view() + Seq::<(u32, u32, Seq<u8>)>::empty() =~= out.deep_view());
    }
    out
}

/// The image held by a decoded width, height and byte buffer: the first four
/// bytes per pixel; none when the buffer is too short.
pub open spec fn image_from_raw(raw: (u32, u32, Seq<u8>)) -> Option<ImageView> {
    if raw.2.len() >= raw.0 * raw.1 * 4 {
        Some(ImageView { width: raw.0, height: raw.1, data: raw.2.take(raw.0 * raw.1 * 4) })
    } else {
        None
    }
}

/// The image of a decoding result, if there is one.
pub open spec fn decoded_view(res: Option<(u32, u32, Seq<u8>)>) -> Option<ImageView> {
    match res {
        Some(raw) => image_from_raw(raw),
        None => None,
    }
}

/// The images of the decoded frames, in order, frames whose buffer is too
/// short left out.
pub open spec fn usable_frames(frames: Seq<(u32, u32, Seq<u8>)>) -> Seq<ImageView>
    decreases frames.len(),
{
    if frames.len() == 0 {
        Seq::empty()
    } else {
        let before = usable_frames(frames.drop_last());
        match image_from_raw(frames.last()) {
            Some(img) => before.push(img),
            None => before,
        }
    }
}

/// The formats tried after the guessed one, in order.
pub open spec fn fallback_formats() -> Seq<ImageFormat> {
    seq![
        ImageFormat::Png,
        ImageFormat::Jpeg,
        ImageFormat::Gif,
        ImageFormat::Bmp,
        ImageFormat::Ico,
        ImageFormat::Tiff,
        ImageFormat::WebP,
        ImageFormat::Pnm,
        ImageFormat::Tga,
        ImageFormat::Dds,
    ]
}

/// The image of the first of `formats` whose decoder reads `bytes`.
pub open spec fn first_decoded(bytes: Seq<u8>, formats: Seq<ImageFormat>) -> Option<ImageView>
    decreases formats.len(),
{
    if formats.len() == 0 {
        None
    } else {
        match decoded_view(decoded_image_as(bytes, formats[0])) {
            Some(img) => Some(img),
            None => first_decoded(bytes, formats.drop_first()),
        }
    }
}

/// The image read from `bytes` by the format guessed from its signature.
pub open spec fn guessed_image(bytes: Seq<u8>) -> Option<ImageView> {
    match guessed_format(bytes) {
        Some(format) => decoded_view(decoded_image_as(bytes, format)),
        None => None,
    }
}

/// The single image read from `bytes`: by the guessed format, else by the
/// first fallback format that works.
pub open spec fn robust_image(bytes: Seq<u8>) -> Option<ImageView> {
    match guessed_image(bytes) {
        Some(img) => Some(img),
        None => first_decoded(bytes, fallback_formats()),
    }
}

/// The frames loaded from `bytes`: the usable frames of a GIF, or else the
/// single image read by any decoder.
pub open spec fn loaded_frames(bytes: Seq<u8>) -> Result<Seq<ImageView>, LoadError> {
    let gif = if has_gif_signature(bytes) {
        usable_frames(gif_frames(bytes))
    } else {
        Seq::empty()
    };
    if gif.len() > 0 {
        Ok(gif)
    } else {
        match robust_image(bytes) {
            Some(img) => Ok(seq![img]),
            None => Err(LoadError::UnrecognizedFormat),
        }
    }
}

/// The views of a sequence of images.
pub open spec fn views(frames: Seq<RgbaImage>) -> Seq<ImageView> {
    frames.map_values(|f: RgbaImage| f@)
}

/// The image held by a decoding result, if any.
pub fn image_from_decoded(res: Option<(u32, u32, Vec<u8>)>) -> (img: Option<RgbaImage>)
    ensures
        match img {
            Some(img) => decoded_view(res.deep_view()) == Some(img@) && img@.wf(),
            None => decoded_view(res.deep_view()) is None,
        },
{
    match res {
        Some((width, height, data)) => {
            let ghost raw = data@;
            assert(data.deep_view() =~= data@);
            assert(res.deep_view() == Some((width, height, data@)));
            let img = RgbaImage::from_raw(width, height, data);
            if let Some(i) = &img {
                assert(i@ == ImageView { width, height, data: raw.take(width * height * 4) });
            }
            img
        },
        None => None,
    }
}

/// The images of the decoded GIF frames, in order, frames whose buffer is
/// too short left out.
pub fn usable_gif_frames(frames: Vec<(u32, u32, Vec<u8>)>) -> (out: Vec<RgbaImage>)
    ensures
        views(out@) == usable_frames(frames.deep_view()),
        forall|i: int| 0 <= i < out@.len() ==> (#[trigger] out@[i])@.wf(),
{
    let ghost all = frames.deep_view();
    let mut out: Vec<RgbaImage> = Vec::new();
    let total = frames.len();
    let mut rest = frames;
    let mut k: usize = 0;
    while rest.len() > 0
        invariant
            k + rest.deep_view().len() == all.len(),
            all.len() == total,
            rest.deep_view() =~= all.skip(k as int),
            views(out@) == usable_frames(all.take(k as int)),
            forall|i: int| 0 <= i < out@.len() ==> (#[trigger] out@[i])@.wf(),
        decreases rest.len(),
    {
        let ghost rest_before = rest@;
        let ghost dv_before = rest.deep_view();
        assert(rest.deep_view()[0] == rest_before[0].deep_view());
        let frame = rest.remove(0);
        assert(frame.deep_view() == all[k as int]);
        assert(all.take(k + 1).drop_last() =~= all.take(k as int));
        let ghost out_before = out@;
        match image_from_decoded(Some(frame)) {
            Some(img) => {
                out.push(img);
                assert(views(out@) =~= views(out_before).push(img@));
            },
            None => {},
        }
        k = k + 1;
        assert(rest@ =~= rest_before.subrange(1, rest_before.len() as int));
        assert forall|j: int| 0 <= j < rest@.len() implies #[trigger] rest.deep_view()[j] == dv_before[j + 1] by {
            assert(rest.deep_view()[j] == rest@[j].deep_view());
            assert(dv_before[j + 1] == rest_before[j + 1].deep_view());
        }
        assert(rest.deep_view() =~= all.skip(k as int));
    }
    assert(all.take(all.len() as int) =~= all);
    out
}

/// Reads a single image: by the guessed format, else by each known format in turn.
fn load_image_robust_from_bytes(bytes: &[u8]) -> (res: Result<RgbaImage, LoadError>)
    ensures
        match res {
            Ok(img) => robust_image(bytes@) == Some(img@) && img@.wf(),
            Err(e) => robust_image(bytes@) is None && e == LoadError::UnrecognizedFormat,
        },
{
    if let Some(format) = guess_image_format(bytes) {
        if let Some(img) = image_from_decoded(decode_image_as(bytes, format)) {
            return Ok(img);
        }
    }
    let formats = [
        ImageFormat::Png,
        ImageFormat::Jpeg,
        ImageFormat::Gif,
        ImageFormat::Bmp,
        ImageFormat::Ico,
        ImageFormat::Tiff,
        ImageFormat::WebP,
        ImageFormat::Pnm,
        ImageFormat::Tga,
        ImageFormat::Dds,
    ];
    assert(formats@ =~= fallback_formats());
    assert(fallback_formats().skip(0) =~= fallback_formats());
    for i in 0..10usize
        invariant
            formats@ == fallback_formats(),
            guessed_image(bytes@) is None,
            first_decoded(bytes@, fallback_formats()) == first_decoded(bytes@, fallback_formats().skip(i as int)),
    {
        let format = formats[i];
        assert(fallback_formats().skip(i as int).drop_first() =~= fallback_formats().skip(i + 1));
        if let Some(img) = image_from_decoded(decode_image_as(bytes, format)) {
            return Ok(img);
        }
    }
    assert(fallback_formats().skip(10) =~= Seq::<ImageFormat>::empty());
    Err(LoadError::UnrecognizedFormat)
}

/// Loads all frames from the bytes of an image file: every usable frame of
/// an animated GIF, or else a single image read by any decoder.
pub fn load_frames_from_bytes(bytes: &[u8]) -> (res: Result<Vec<RgbaImage>, LoadError>)
    ensures
        match res {
            Ok(frames) => loaded_frames(bytes@) == Ok::<Seq<ImageView>, LoadError>(views(frames@)) && forall|i: int|
                0 <= i < frames@.len() ==> (#[trigger] frames@[i])@.wf(),
            Err(e) => loaded_frames(bytes@) == Err::<Seq<ImageView>, LoadError>(e),
        },
{
    let mut frames: Vec<RgbaImage> = Vec::new();
    if matches!(guess_image_format(bytes), Some(ImageFormat::Gif)) {
        frames = usable_gif_frames(read_gif_frames(bytes));
    }
    assert(frames@.len() == views(frames@).len());
    if frames.len() == 0 {
        match load_image_robust_from_bytes(bytes) {
            Ok(img) => {
                frames.push(img);
                assert(views(frames@) =~= seq![img@]);
            },
            Err(e) => {
                return Err(e);
            },
        }
    }
    Ok(frames)
}

/// A successful load always gives at least one frame, and only a file that
/// no decoder reads fails.
pub proof fn lemma_load_outcomes(bytes: Seq<u8>)
    ensures
        loaded_frames(bytes) matches Ok(frames) ==> frames.len() >= 1,
        loaded_frames(bytes) is Err <==> (robust_image(bytes) is None && (!has_gif_signature(bytes) || usable_frames(
            gif_frames(bytes),
        ).len() == 0)),
{
}

} // verus!
