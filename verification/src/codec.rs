//! The two outside formats: the font comes as a zlib stream, and an image goes out
//! as a PNG file.
use std::io::Read;
use vstd::prelude::*;
use vstd::string::*;

verus! {

/// What a zlib stream inflates to, or in words what is wrong with it.
pub uninterp spec fn inflated(data: Seq<u8>) -> Result<Seq<u8>, Seq<char>>;

/// `flate2::read::ZlibDecoder`, read to its end: the bytes that the stream inflates
/// to, or the decoder's error in words. Which of the two it is, and what it holds,
/// depends on the bytes of the stream alone; they are not described further.
#[verifier::external_body]
fn inflate(data: &[u8]) -> (r: Result<Vec<u8>, String>)
    ensures
        match r {
            Ok(bytes) => inflated(data@) == Ok::<Seq<u8>, Seq<char>>(bytes@),
            Err(text) => inflated(data@) == Err::<Seq<u8>, Seq<char>>(text@),
        },
{
    let mut bytes = Vec::new();
    match flate2::read::ZlibDecoder::new(data).read_to_end(&mut bytes) {
        Ok(_) => Ok(bytes),
        Err(e) => Err(e.to_string()),
    }
}

/// The font in a zlib stream.
pub fn inflate_font(data: &[u8]) -> (r: Result<Vec<u8>, String>)
    ensures
        match inflated(data@) {
            Ok(font) => r matches Ok(bytes) && bytes@ == font,
            Err(why) => r matches Err(text) && text@ == "font inflate error: "@ + why,
        },
{
    match inflate(data) {
        Ok(bytes) => Ok(bytes),
        Err(why) => {
            let mut text = "font inflate error: ".to_string();
            text.append(why.as_str());
            Err(text)
        },
    }
}

/// The PNG file of an image with a palette of three bytes a colour and a byte a pixel,
/// row by row from the top.
pub uninterp spec fn png_file(cols: u32, rows: u32, palette: Seq<u8>, pixels: Seq<u8>) -> Seq<u8>;

/// `png::Encoder`, set to eight bits of palette index a pixel, with its header and its
/// image data written to memory. It refuses an image without columns or rows when it
/// writes the header, and no other with as many pixels as places. The file depends on
/// the arguments alone; its bytes are not described further.
#[verifier::external_body]
fn encode(cols: u32, rows: u32, palette: Vec<u8>, pixels: &[u8]) -> (r: Result<Vec<u8>, String>)
    requires
        pixels@.len() == cols * rows,
        palette@.len() <= i32::MAX,
    ensures
        match r {
            Ok(file) => cols > 0 && rows > 0 && file@ == png_file(
                cols,
                rows,
                palette@,
                pixels@,
            ),
            Err(text) => {
                ||| cols == 0 && text@ == "Zero width not allowed"@
                ||| cols > 0 && rows == 0 && text@ == "Zero height not allowed"@
            },
        },
{
    let mut file = Vec::new();
    let mut encoder = png::Encoder::new(&mut file, cols, rows);
    encoder.set_color(png::ColorType::Indexed);
    encoder.set_depth(png::BitDepth::Eight);
    encoder.set_palette(palette);
    let mut writer = encoder.write_header().map_err(|e| e.to_string())?;
    writer.write_image_data(pixels).map_err(|e| e.to_string())?;
    drop(writer);
    Ok(file)
}

/// The PNG file of an image.
pub fn encode_png(cols: u32, rows: u32, palette: Vec<u8>, pixels: &[u8]) -> (r: Result<
    Vec<u8>,
    String,
>)
    requires
        pixels@.len() == cols * rows,
        palette@.len() <= i32::MAX,
    ensures
        if cols == 0 {
            r matches Err(text) && text@ == "PNG header error: "@ + "Zero width not allowed"@
        } else if rows == 0 {
            r matches Err(text) && text@ == "PNG header error: "@ + "Zero height not allowed"@
        } else {
            r matches Ok(file) && file@ == png_file(cols, rows, palette@, pixels@)
        },
{
    match encode(cols, rows, palette, pixels) {
        Ok(file) => Ok(file),
        Err(why) => {
            let mut text = "PNG header error: ".to_string();
            text.append(why.as_str());
            Err(text)
        },
    }
}

} // verus!
