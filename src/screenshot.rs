use vstd::prelude::*;

use base64::Engine;

verus! {

/// The padded standard base64 text of `b`.
pub uninterp spec fn base64_of(b: Seq<u8>) -> Seq<char>;

/// Relies on base64's `STANDARD` engine `encode`: the padded standard base64
/// text of the bytes, four characters for each started group of three. It
/// panics where that length overflows `usize`.
#[verifier::external_body]
fn encode_base64(data: &Vec<u8>) -> (r: String)
    requires
        4 * ((data@.len() + 2) / 3) <= usize::MAX,
    ensures
        r@ == base64_of(data@),
        r@.len() == 4 * ((data@.len() + 2) / 3),
{
    base64::engine::general_purpose::STANDARD.encode(data)
}

/// The data URL of a PNG image whose base64 text is `encoded`.
pub fn png_data_url(encoded: &str) -> (r: String)
    ensures
        r@ == "data:image/png;base64,"@ + encoded@,
{
    let mut r = "data:image/png;base64,".to_owned();
    r.append(encoded);
    r
}

/// A captured image: its bytes, size and format.
#[derive(Clone, Debug)]
pub struct ScreenshotData {
    pub id: u128,
    pub data: Vec<u8>,
    pub width: u32,
    pub height: u32,
    pub format: String,
}

impl ScreenshotData {
    /// A PNG image with a fresh id.
    pub fn new(data: Vec<u8>, width: u32, height: u32) -> (r: ScreenshotData)
        ensures
            r.id != 0,
            r.data == data,
            r.width == width,
            r.height == height,
            r.format@ == "png"@,
    {
        ScreenshotData {
            id: crate::models::fresh_id(),
            data,
            width,
            height,
            format: "png".to_owned(),
        }
    }

    /// The image's bytes in padded standard base64.
    pub fn to_base64(&self) -> (r: String)
        requires
            4 * ((self.data@.len() + 2) / 3) <= usize::MAX,
        ensures
            r@ == base64_of(self.data@),
    {
        encode_base64(&self.data)
    }

    /// The image as a `data:` URL.
    pub fn to_data_url(&self) -> (r: String)
        requires
            4 * ((self.data@.len() + 2) / 3) <= usize::MAX,
        ensures
            r@ == "data:image/png;base64,"@ + base64_of(self.data@),
    {
        let encoded = self.to_base64();
        png_data_url(encoded.as_str())
    }
}

} // verus!
