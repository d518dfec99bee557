//! Asset uploads.

use wem_kernel::service::asset::{is_allowed_ext, is_image_ext, upload_file, MAX_FILE_SIZE};

#[test]
fn extensions() {
    assert!(is_image_ext("png"));
    assert!(!is_image_ext("pdf"));
    assert!(is_allowed_ext("pdf"));
    assert!(is_allowed_ext("mov"));
    assert!(!is_allowed_ext("exe"));
}

#[test]
fn upload_names_file_by_content_hash() {
    let r = upload_file("Photo.PNG", b"hello").unwrap();
    assert_eq!(r.hash, "2cf24dba5fb0a30e");
    assert_eq!(r.path, "assets/2cf24dba5fb0a30e.png");
    assert_eq!(r.original_name, "Photo.PNG");
    assert_eq!(r.size, 5);
}

#[test]
fn upload_refusals() {
    assert_eq!(upload_file("a.png", b"").unwrap_err(), "文件为空");
    assert_eq!(upload_file("noext", b"x").unwrap_err(), "无法识别文件扩展名");
    assert_eq!(upload_file(".hidden", b"x").unwrap_err(), "无法识别文件扩展名");
    assert_eq!(upload_file("a.exe", b"x").unwrap_err(), "不支持的文件类型: .exe");
    let big = vec![0u8; MAX_FILE_SIZE + 1];
    assert_eq!(upload_file("a.png", &big).unwrap_err(), "文件大小超出限制 (20MB)");
}
