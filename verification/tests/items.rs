use flea_watch::codec::{convert_frame_to_luma32f, frame_to_png, DecodeError};
use flea_watch::frame::FrameData;
use flea_watch::items::{
    decode_item, item_image_path, item_names, load_item_images, ItemError, ItemFile, ItemWarning,
    LoadedItems,
};
use std::cell::RefCell;
use std::time::Instant;

fn frame(level: u8) -> FrameData {
    FrameData::from_pixels(vec![level; 8], 2, 1, 8, Instant::now()).unwrap()
}

fn picture(level: u8) -> ItemFile {
    ItemFile::Found(frame_to_png(&frame(level)).unwrap())
}

#[test]
fn names_are_the_lines_of_the_list() {
    for list in [
        "", "\n", "\n\n", "Grizzly", "Grizzly\n", "Grizzly\r\n", "a\r\n\r\nb\r", "a\rb\nc", "\r\n",
        "\r", "a\n\r\nb", "a\r\r\nb", "Graphics card\nПила\nx", "\u{2028}a\nb",
    ] {
        let expected: Vec<&str> = list.lines().collect();
        assert_eq!(item_names(list), expected, "{:?}", list);
    }
}

#[test]
fn path_is_made_of_the_name() {
    assert_eq!(item_image_path("Grizzly"), "captcha-screenshots/items/Grizzly.png");
    assert_eq!(item_image_path(""), "captcha-screenshots/items/.png");
}

#[test]
fn items_are_loaded_by_name() {
    let asked = RefCell::new(Vec::new());
    let loaded = load_item_images("Grizzly\nSalewa\nIFAK", |path: String| {
        asked.borrow_mut().push(path.clone());
        match path.as_str() {
            "captcha-screenshots/items/Grizzly.png" => picture(40),
            "captcha-screenshots/items/Salewa.png" => ItemFile::Missing,
            _ => ItemFile::Found(b"junk".to_vec()),
        }
    })
    .unwrap();
    assert_eq!(
        asked.into_inner(),
        vec![
            "captcha-screenshots/items/Grizzly.png",
            "captcha-screenshots/items/Salewa.png",
            "captcha-screenshots/items/IFAK.png"
        ]
    );
    assert_eq!(loaded.images.len(), 1);
    let image = loaded.images.get("Grizzly").unwrap();
    assert_eq!((image.width(), image.height()), (2, 1));
    assert_eq!(image.data(), convert_frame_to_luma32f(&frame(40)).unwrap().data());
    assert!(loaded.images.get("Salewa").is_none());
    assert_eq!(loaded.warnings.len(), 2);
    assert!(matches!(&loaded.warnings[0], ItemWarning::NotFound(name) if name == "Salewa"));
    assert!(matches!(
        &loaded.warnings[1],
        ItemWarning::NotDecoded(name, ItemError::NoPicture(DecodeError::Refused(_)))
            if name == "IFAK"
    ));
}

#[test]
fn later_picture_of_a_name_counts() {
    let count = RefCell::new(0u8);
    let loaded = load_item_images("a\na\na", |_: String| {
        *count.borrow_mut() += 1;
        if *count.borrow() == 3 {
            ItemFile::Missing
        } else {
            picture(*count.borrow() * 50)
        }
    })
    .unwrap();
    let expected = convert_frame_to_luma32f(&frame(100)).unwrap();
    assert_eq!(loaded.images.get("a").unwrap().data(), expected.data());
    assert_eq!(loaded.images.len(), 1);
    assert_eq!(loaded.warnings.len(), 1);
}

#[test]
fn file_that_cannot_be_opened_ends_the_loading() {
    let asked = RefCell::new(0);
    let loaded = load_item_images("a\nb\nc", |path: String| {
        *asked.borrow_mut() += 1;
        if path.ends_with("/b.png") {
            ItemFile::Unreadable
        } else {
            picture(1)
        }
    });
    assert_eq!(loaded.err().unwrap().item, "b");
    assert_eq!(asked.into_inner(), 2);
}

#[test]
fn empty_list_loads_nothing() {
    let loaded = load_item_images("", |_: String| ItemFile::Unreadable).unwrap();
    assert_eq!(loaded.images.len(), 0);
    assert!(loaded.warnings.is_empty());
}

#[test]
fn name_without_extension_has_no_format() {
    for name in ["", "bags/", "/"] {
        assert!(image::ImageFormat::from_path(item_image_path(name)).is_err());
        let list = format!("{}\n", name);
        let loaded = load_item_images(&list, |_: String| picture(9)).unwrap();
        assert_eq!(loaded.images.len(), 0);
        assert_eq!(loaded.warnings.len(), 1);
        assert!(matches!(
            &loaded.warnings[0],
            ItemWarning::NotDecoded(item, ItemError::UnknownFormat) if item == name
        ));
    }
    for name in ["a", ".", "..", "bags/a", "bags/.", "a.", "a\\b", "C:", "\u{43f}"] {
        assert!(image::ImageFormat::from_path(item_image_path(name)).is_ok());
        let loaded = load_item_images(name, |_: String| picture(9)).unwrap();
        assert!(loaded.images.get(name).is_some());
        assert!(loaded.warnings.is_empty());
    }
}

#[test]
fn item_is_decoded_where_its_format_is_known() {
    let file = frame_to_png(&frame(9)).unwrap();
    let image = decode_item(true, &file).unwrap();
    assert_eq!(image.data(), convert_frame_to_luma32f(&frame(9)).unwrap().data());
    assert!(matches!(decode_item(false, &file), Err(ItemError::UnknownFormat)));
    assert!(matches!(
        decode_item(true, &b"junk".to_vec()),
        Err(ItemError::NoPicture(DecodeError::Refused(_)))
    ));
}

#[test]
fn item_with_a_broken_palette_is_passed_over() {
    let mut file = vec![137, 80, 78, 71, 13, 10, 26, 10];
    file.extend_from_slice(&[0, 0, 0, 13, b'I', b'H', b'D', b'R']);
    file.extend_from_slice(&[0, 0, 0, 1, 0, 0, 0, 1, 8, 3, 0, 0, 0, 0x28, 0xcb, 0x34, 0xbb]);
    file.extend_from_slice(&[0, 0, 0, 2, b'P', b'L', b'T', b'E', 7, 7, 0, 0, 0, 0]);
    let loaded = load_item_images("a\nb", |path: String| {
        if path.ends_with("/a.png") {
            ItemFile::Found(file.clone())
        } else {
            picture(3)
        }
    })
    .unwrap();
    assert!(loaded.images.get("a").is_none());
    assert!(loaded.images.get("b").is_some());
    assert!(matches!(
        &loaded.warnings[0],
        ItemWarning::NotDecoded(name, ItemError::NoPicture(DecodeError::UnsoundPalette))
            if name == "a"
    ));
}

/// Files that stay as they are: `a`, `b` and `c` are pictures, `junk` is none, and nothing else is
/// there.
fn shelf(path: String) -> ItemFile {
    match path.as_str() {
        "captcha-screenshots/items/a.png" => picture(10),
        "captcha-screenshots/items/b.png" => picture(20),
        "captcha-screenshots/items/c.png" => picture(30),
        "captcha-screenshots/items/junk.png" => ItemFile::Found(vec![1, 2, 3]),
        _ => ItemFile::Missing,
    }
}

fn assert_same_images(one: &LoadedItems, other: &LoadedItems, names: &[&str]) {
    assert_eq!(one.images.len(), other.images.len());
    for name in names {
        let data = |items: &LoadedItems| items.images.get(name).map(|i| i.data().clone());
        assert_eq!(data(one), data(other), "{}", name);
    }
}

#[test]
fn order_and_repetition_of_lines_play_no_part() {
    let names = ["a", "b", "c", "junk", "gone"];
    let one = load_item_images("a\nb\njunk\nc\ngone", shelf).unwrap();
    let other = load_item_images("gone\nc\nc\njunk\na\nb\na\njunk\n", shelf).unwrap();
    assert_eq!(one.images.len(), 3);
    assert_same_images(&one, &other, &names);
}

#[test]
fn line_without_a_picture_changes_nothing_else() {
    let names = ["a", "b", "c"];
    let plain = load_item_images("a\nb\nc", shelf).unwrap();
    for bad in ["junk", "gone", ""] {
        for list in [
            format!("{}\na\nb\nc", bad),
            format!("a\n{}\nb\nc", bad),
            format!("a\nb\nc\n{}\n", bad),
        ] {
            let loaded = load_item_images(&list, shelf).unwrap();
            assert!(loaded.images.get(bad).is_none());
            assert_eq!(loaded.warnings.len(), 1);
            assert_same_images(&loaded, &plain, &names);
        }
    }
}
