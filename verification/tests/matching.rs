use fuse_rust::Fuse;

#[test]
fn multibyte_chars() {
    let pat = "f";
    let s: [&str; 7] = [
        "Â®âˆ®â„•âŠ†â„•â‚€âŠ‚â„¤â„š",
        "ğŸ˜ŠğŸ¥ºğŸ˜‰ğŸ˜ğŸ˜˜ğŸ˜š",
        "â¡â œâ ‡â ‘â ¹ â ºâ â ",
        "áƒ’áƒ—áƒ®áƒáƒ•áƒ—",
        "Ä±ntÉ™ËˆnÃ¦ÊƒÉ™nÉ™l",
        "Î³Î½Ï‰Ïá½·Î¶Ï‰ á¼€Ï€á½¸",
        "ã‚³ãƒ³ãƒ‹ãƒãƒ",
    ];

    assert!(Fuse::default().search_text_in_iterable(pat, &s[..]).is_empty());
}

#[test]
fn multibyte_chars_indices() {
    let needle = "f";
    let s = "Â®fâˆ®";

    let fuse = Fuse::default();
    let pat = fuse.create_pattern(needle);
    let x = fuse.search(pat.as_ref(), s).unwrap();
    let r = &x.ranges[0];

    assert_eq!(&s[r.start..r.end], needle);
}

#[test]
fn full_match_higher() {
    let s: [&str; 5] = ["Syrup", "Syrup2", "Live", "Live2", "Live3"];

    let fuse = Fuse::default();

    let result1 = fuse.search_text_in_iterable("Syrup", &s[..]);

    assert_eq!(result1.len(), 2);
    assert_eq!(result1[0].index, 0);
    assert_eq!(result1[1].index, 1);

    let result2 = fuse.search_text_in_iterable("live", &s[..]);

    assert_eq!(result2.len(), 3);
    assert_eq!(result2[0].index, 2);
    assert_eq!(result2[1].score, result2[2].score);
}
