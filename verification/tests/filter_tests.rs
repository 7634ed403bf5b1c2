use imagev::{filter_image_names, is_image_filename, sanitize_table_name};

#[test]
fn gif_is_excluded_and_upper_case_jpg_is_included() {
    assert!(!is_image_filename("photo.GIF"));
    assert!(is_image_filename("photo.JPG"));
}

#[test]
fn every_accepted_extension_matches_case_insensitively() {
    for name in [
        "a.jpg", "a.jpeg", "a.png", "a.heif", "a.heic", "a.JPG", "a.JpEg", "a.PNG", "a.HEIF",
        "a.HeiC",
    ] {
        assert!(is_image_filename(name), "{name} should be an image");
    }
}

#[test]
fn non_images_are_rejected() {
    for name in ["a.gif", "a.txt", "a.jpg.bak", "noext", "jpg", ".jpg", "a.", "a.jp", "a.jpgg"] {
        assert!(!is_image_filename(name), "{name} should not be an image");
    }
}

#[test]
fn extension_is_taken_after_the_last_dot() {
    assert!(is_image_filename("archive.tar.png"));
    assert!(!is_image_filename("picture.png.old"));
}

#[test]
fn filter_keeps_exactly_the_images_in_order() {
    let names = vec![
        "b.png".to_string(),
        "notes.txt".to_string(),
        "a.JPG".to_string(),
        "anim.gif".to_string(),
        "c.heic".to_string(),
    ];
    let kept = filter_image_names(&names);
    assert_eq!(kept, vec!["b.png".to_string(), "a.JPG".to_string(), "c.heic".to_string()]);
}

#[test]
fn sanitize_replaces_non_alphanumerics_with_underscores() {
    assert_eq!(sanitize_table_name("/home/user/Photos"), "_home_user_Photos");
    assert_eq!(sanitize_table_name("/a/b-c.d e"), "_a_b_c_d_e");
    assert_eq!(sanitize_table_name("abc123"), "abc123");
    assert_eq!(sanitize_table_name(""), "");
}

#[test]
fn sanitize_keeps_unicode_letters_and_digits() {
    assert_eq!(sanitize_table_name("/fotos/verão"), "_fotos_verão");
    assert_eq!(sanitize_table_name("写真/2021"), "写真_2021");
}
