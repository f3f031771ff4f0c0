use string_sequence::base_trait::ToRange;
use string_sequence::MutableStringSequence;
use string_sequence::SharedStringSequence;
use string_sequence::StringSequence;

fn expect_owned(xs: &[&str]) -> Vec<String> {
    xs.iter().map(|s| s.to_string()).collect()
}

fn test_view_seq(view: StringSequence, expected: &[&str]) {
    assert_eq!(view.to_vec(), expect_owned(expected));
    assert_eq!(view.len(), expected.len());
    assert_eq!(view.text(), expected.join(""));
    assert_eq!(view.first(), expected.first().map(|s| s.to_string()));
    assert_eq!(view.last(), expected.last().map(|s| s.to_string()));

    let array_len = expected.len();
    let ranges = [
        ToRange::to_range(.., array_len),
        ToRange::to_range(..0, array_len),
        ToRange::to_range(0.., array_len),
        ToRange::to_range(..array_len / 2, array_len),
        ToRange::to_range(0..array_len, array_len),
        ToRange::to_range(0..array_len / 2, array_len),
        ToRange::to_range(array_len / 2..array_len, array_len),
    ];

    assert!(view.starts_with(&expected[..]));
    assert!(view.starts_with(&expected[..array_len / 2]));
    assert!(view.ends_with(&expected[array_len / 2..array_len]));

    for range in ranges.iter() {
        let sub = &expected[range.start..range.end];
        assert_eq!(view.slice(*range).into_vec(), expect_owned(sub));
        assert!(view.contains(sub));
    }
}

fn test_view_mut(view: MutableStringSequence, expected: &[&str]) {
    assert_eq!(view.to_vec(), expect_owned(expected));
    assert_eq!(view.len(), expected.len());
    assert_eq!(view.text(), expected.join(""));
    assert_eq!(view.first(), expected.first().map(|s| s.to_string()));
    assert_eq!(view.last(), expected.last().map(|s| s.to_string()));

    let array_len = expected.len();
    let ranges = [
        ToRange::to_range(.., array_len),
        ToRange::to_range(..0, array_len),
        ToRange::to_range(0.., array_len),
        ToRange::to_range(..array_len / 2, array_len),
        ToRange::to_range(0..array_len, array_len),
        ToRange::to_range(0..array_len / 2, array_len),
        ToRange::to_range(array_len / 2..array_len, array_len),
    ];

    assert!(view.starts_with(&expected[..]));
    assert!(view.starts_with(&expected[..array_len / 2]));
    assert!(view.ends_with(&expected[array_len / 2..array_len]));

    for range in ranges.iter() {
        let sub = &expected[range.start..range.end];
        assert_eq!(view.slice(*range).into_vec(), expect_owned(sub));
        assert!(view.contains(sub));
    }
}

fn test_view_share(view: SharedStringSequence, expected: &[&str]) {
    assert_eq!(view.to_vec(), expect_owned(expected));
    assert_eq!(view.len(), expected.len());
    assert_eq!(view.text(), expected.join(""));
    assert_eq!(view.first(), expected.first().map(|s| s.to_string()));
    assert_eq!(view.last(), expected.last().map(|s| s.to_string()));

    let array_len = expected.len();
    let ranges = [
        ToRange::to_range(.., array_len),
        ToRange::to_range(..0, array_len),
        ToRange::to_range(0.., array_len),
        ToRange::to_range(..array_len / 2, array_len),
        ToRange::to_range(0..array_len, array_len),
        ToRange::to_range(0..array_len / 2, array_len),
        ToRange::to_range(array_len / 2..array_len, array_len),
    ];

    assert!(view.starts_with(&expected[..]));
    assert!(view.starts_with(&expected[..array_len / 2]));
    assert!(view.ends_with(&expected[array_len / 2..array_len]));

    for range in ranges.iter() {
        let sub = &expected[range.start..range.end];
        assert_eq!(view.slice(*range).into_vec(), expect_owned(sub));
        assert!(view.contains(sub));
    }
}

#[test]
fn view() {
    let vars: &[&[&str]] = &[
        &["dsagdsaf", "ewarsdag", "adsgsdag", "dfd0k99", "llas0px;;;"], // only ascii
        &["dsagdsaf", "ewarsdag", "adsgsdag", "ㅇㄴ미ㅠ채ㅑㅁㄷ", "ㅇㄴ미ㅏㅊ"], // with unicode
        &["dsagdsaf", "ashg", "asdglkjic090a", "ㅇㄴ미ㅠ채ㅑㅁㄷ", "ㅇㄴ미ㅏㅊ"],
        &["ㅐㄴㅇ0", "ㄹㅇㄴ02.,", " ㅇㄴ마🤣🤣🤣", "ㅇㄴㅁ000"], // with emoji (4B)
        &["asdlk0f99"],
        &[],
        &["--9dsc0", "0as-=-ㄴㅁ0", "ㅊ,ㅍ0009", "ㄴ00ㅏㅏ0-ㅔ;"],
    ];

    for var in vars.iter().copied() {
        let view = MutableStringSequence::from_slice(var);
        test_view_seq(view.clone().into_string_sequence(), var);

        let shared = MutableStringSequence::from_sequence(&view).into_shared_sequence();
        test_view_share(shared.clone(), var);

        let range_begin = rand::random::<u8>() % 8;
        let range_size = rand::random::<u8>() % 8;
        let begin = (range_begin as usize).min(var.len());
        let end = (begin + range_size as usize).min(var.len());

        test_view_share(shared.subsequence(begin..end), &var[begin..end]);

        test_view_mut(view, var);
    }

    let var = ["dsagdsaf", "ewarsdag", "adsgsdag", "ㅇㄴ미ㅠ채ㅑㅁㄷ", "ㅇㄴ미ㅏㅊ"];
    let ser = serde_json::to_string(&var).unwrap();
    let decoded: Vec<String> = serde_json::from_str(&ser).unwrap();
    let refs: Vec<&str> = decoded.iter().map(|s| s.as_str()).collect();
    let de = MutableStringSequence::from_slice(&refs);
    let de_ser = serde_json::to_string(&de.to_vec()).unwrap();
    assert_eq!(ser, de_ser);

    test_view_seq(de.clone().into_string_sequence(), &var);
    test_view_share(de.clone().into_shared_sequence(), &var);
    test_view_mut(de, &var);
}

#[test]
fn stability() {
    for _ in 0..5 {
        let var: Vec<_> = (0..5000)
            .map(|_| String::from_iter((0..rand::random::<u8>()).map(|_| rand::random::<char>())))
            .collect();

        let var = Vec::from_iter(var.iter().map(|x| x.as_str()));
        let var = &var[..];
        let view = MutableStringSequence::from_slice(var);
        test_view_seq(view.clone().into_string_sequence(), var);
        test_view_share(view.clone().into_shared_sequence(), var);
        test_view_mut(view, var);
    }
}
