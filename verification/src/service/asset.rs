//! Uploaded asset files: which extensions are accepted, and how a file is
//! named and placed (`assets/{hash}.{ext}`, the hash taken from its
//! content).

use vstd::prelude::*;
use crate::service::oplog::hex_digit;
use crate::text::{decimal, decimal_chars, from_chars, push_str, str_eq};

verus! {

/// Directory, under the data root, that holds the assets.
pub const ASSETS_DIR_NAME: &'static str = "assets";

/// Largest accepted file, in bytes (20 MiB).
pub const MAX_FILE_SIZE: usize = 20 * 1024 * 1024;

/// The handler state of asset routes.
#[derive(Debug, Clone)]
pub struct AssetState {
    pub data_root: String,
}

/// A stored upload.
#[derive(Debug, Clone)]
pub struct UploadResult {
    /// Path relative to the data root, `assets/{hash}.{ext}`.
    pub path: String,
    pub original_name: String,
    pub size: usize,
    pub hash: String,
}

/// Extensions of images.
pub open spec fn image_exts() -> Seq<Seq<char>> {
    seq!["jpg"@, "jpeg"@, "png"@, "gif"@, "webp"@, "bmp"@, "svg"@, "avif"@, "ico"@]
}

/// Extensions accepted for upload: images, documents, audio and video.
pub open spec fn allowed_exts() -> Seq<Seq<char>> {
    image_exts() + seq!["pdf"@, "mp3"@, "wav"@, "ogg"@, "m4a"@, "flac"@, "mp4"@, "webm"@, "mov"@]
}

fn in_list(list: &[&str], ext: &str) -> (r: bool)
    ensures
        r == list@.map_values(|s: &str| s@).contains(ext@),
{
    let ghost l = list@.map_values(|s: &str| s@);
    let mut i: usize = 0;
    while i < list.len()
        invariant
            i <= list@.len(),
            l == list@.map_values(|s: &str| s@),
            forall|k: int| 0 <= k < i ==> l[k] != ext@,
        decreases list.len() - i,
    {
        if str_eq(list[i], ext) {
            assert(l[i as int] == ext@);
            return true;
        }
        i += 1;
    }
    false
}

/// Whether `ext` is an image extension.
pub fn is_image_ext(ext: &str) -> (r: bool)
    ensures
        r == image_exts().contains(ext@),
{
    let list: [&str; 9] = ["jpg", "jpeg", "png", "gif", "webp", "bmp", "svg", "avif", "ico"];
    let r = in_list(&list, ext);
    assert(list@.map_values(|s: &str| s@) =~= image_exts());
    r
}

/// Whether files with extension `ext` may be uploaded.
pub fn is_allowed_ext(ext: &str) -> (r: bool)
    ensures
        r == allowed_exts().contains(ext@),
{
    let list: [&str; 18] = [
        "jpg",
        "jpeg",
        "png",
        "gif",
        "webp",
        "bmp",
        "svg",
        "avif",
        "ico",
        "pdf",
        "mp3",
        "wav",
        "ogg",
        "m4a",
        "flac",
        "mp4",
        "webm",
        "mov",
    ];
    let r = in_list(&list, ext);
    assert(list@.map_values(|s: &str| s@) =~= allowed_exts());
    r
}

/// What `Path::extension` gives for a path: the part of its file name after
/// the last `.`, if the name has one that is not its first character.
pub uninterp spec fn path_extension(path: Seq<char>) -> Option<Seq<char>>;

/// What `str::to_lowercase` gives (Unicode lowercase mapping).
pub uninterp spec fn lowercase(s: Seq<char>) -> Seq<char>;

/// The SHA-256 digest of `data`.
pub uninterp spec fn sha256_digest(data: Seq<u8>) -> Seq<u8>;

/// The view of an optional string.
pub open spec fn opt_text(o: Option<String>) -> Option<Seq<char>> {
    match o {
        Some(s) => Some(s@),
        None => None,
    }
}

/// `Path::new(path).extension()`, converted to a string (the path is
/// valid UTF-8, so the conversion loses nothing).
#[verifier::external_body]
fn path_extension_of(path: &str) -> (r: Option<String>)
    ensures
        opt_text(r) == path_extension(path@),
{
    std::path::Path::new(path).extension().map(|e| e.to_string_lossy().into_owned())
}

/// `str::to_lowercase`.
#[verifier::external_body]
fn to_lowercase(s: &str) -> (r: String)
    ensures
        r@ == lowercase(s@),
{
    s.to_lowercase()
}

/// `Sha256::digest` (sha2): the 32-byte digest of `data`.
#[verifier::external_body]
fn sha256(data: &[u8]) -> (r: Vec<u8>)
    ensures
        r@ == sha256_digest(data@),
        r@.len() == 32,
{
    <sha2::Sha256 as sha2::Digest>::digest(data).to_vec()
}

/// Lowercase hexadecimal text of bytes, two digits per byte.
pub open spec fn hex_lower(data: Seq<u8>) -> Seq<char>
    decreases data.len(),
{
    if data.len() == 0 {
        Seq::empty()
    } else {
        hex_lower(data.drop_last()) + seq![hex_digit(data.last() as nat / 16), hex_digit(data.last() as nat % 16)]
    }
}

/// `hex::encode`: each byte as two lowercase hexadecimal digits.
#[verifier::external_body]
fn hex_encode(data: &[u8]) -> (r: String)
    ensures
        r@ == hex_lower(data@),
{
    hex::encode(data)
}

/// The lowercase extension of a file name, if it has one.
pub open spec fn file_ext(filename: Seq<char>) -> Option<Seq<char>> {
    match path_extension(filename) {
        Some(e) => Some(lowercase(e)),
        None => None,
    }
}

/// Name under which content is stored: the hex of the first 8 bytes of its
/// SHA-256 digest.
pub open spec fn content_hash(data: Seq<u8>) -> Seq<char> {
    hex_lower(sha256_digest(data).take(8))
}

fn extract_ext(filename: &str) -> (r: Option<String>)
    ensures
        opt_text(r) == file_ext(filename@),
{
    match path_extension_of(filename) {
        Some(e) => Some(to_lowercase(e.as_str())),
        None => None,
    }
}

fn hash_data(data: &[u8]) -> (r: String)
    ensures
        r@ == content_hash(data@),
{
    let digest = sha256(data);
    let head = crate::text::prefix_bytes(&digest, 8);
    hex_encode(head.as_slice())
}

/// Why an upload is refused, if it is: empty, too large, no extension, or
/// an extension not accepted.
pub open spec fn upload_refusal(filename: Seq<char>, size: nat) -> Option<Seq<char>> {
    if size == 0 {
        Some("文件为空"@)
    } else if size > MAX_FILE_SIZE {
        Some("文件大小超出限制 ("@ + decimal((MAX_FILE_SIZE / 1024 / 1024) as nat) + "MB)"@)
    } else {
        match file_ext(filename) {
            None => Some("无法识别文件扩展名"@),
            Some(e) => if allowed_exts().contains(e) {
                None
            } else {
                Some("不支持的文件类型: ."@ + e)
            },
        }
    }
}

/// Checks an upload and names it; an error carries the reason for the
/// refusal. On success the result names the stored file
/// `assets/{hash}.{ext}`; writing it under the data root is left to the
/// caller.
pub fn upload_file(filename: &str, data: &[u8]) -> (r: Result<UploadResult, String>)
    ensures
        r is Err <==> upload_refusal(filename@, data@.len()) is Some,
        r matches Err(msg) ==> upload_refusal(filename@, data@.len()) == Some(msg@),
        r matches Ok(res) ==> {
            &&& res.path@ == "assets/"@ + content_hash(data@) + "."@ + file_ext(filename@)->Some_0
            &&& res.original_name@ == filename@
            &&& res.size == data@.len()
            &&& res.hash@ == content_hash(data@)
        },
{
    if data.len() == 0 {
        return Err("文件为空".to_owned());
    }
    if data.len() > MAX_FILE_SIZE {
        let mut msg = "文件大小超出限制 (".to_owned();
        let mb = decimal_chars(MAX_FILE_SIZE / 1024 / 1024);
        let mbs = from_chars(mb.as_slice());
        push_str(&mut msg, mbs.as_str());
        push_str(&mut msg, "MB)");
        return Err(msg);
    }
    let ext = match extract_ext(filename) {
        Some(e) => e,
        None => {
            return Err("无法识别文件扩展名".to_owned());
        },
    };
    if !is_allowed_ext(ext.as_str()) {
        let mut msg = "不支持的文件类型: .".to_owned();
        push_str(&mut msg, ext.as_str());
        return Err(msg);
    }
    let hash = hash_data(data);
    let mut path = ASSETS_DIR_NAME.to_owned();
    push_str(&mut path, "/");
    push_str(&mut path, hash.as_str());
    push_str(&mut path, ".");
    push_str(&mut path, ext.as_str());
    proof {
        reveal_strlit("assets");
        reveal_strlit("assets/");
        reveal_strlit("/");
        assert(ASSETS_DIR_NAME@ + "/"@ =~= "assets/"@);
    }
    Ok(UploadResult { path, original_name: filename.to_owned(), size: data.len(), hash })
}

} // verus!
