use string_sequence::MutableStringSequence;
use string_sequence::SharedStringSequence;
use string_sequence::StringSequence;

fn owned(xs: &[&str]) -> Vec<String> {
    xs.iter().map(|s| s.to_string()).collect()
}

#[test]
fn basics() {
    let hello_world = ["Hello,", " World!", "asd", " ahgteaw", "adsgads", "dsagkd"];

    assert!(
        MutableStringSequence::from_slice(&hello_world)
            .eq_seq(&StringSequence::from_slice(&hello_world))
    );

    assert!(
        MutableStringSequence::from_slice(&hello_world)
            .eq_seq(&SharedStringSequence::from_slice(&hello_world))
    );
}

#[test]
fn mutation() {
    let mut seq = MutableStringSequence::new();

    seq.push_back("hello");
    assert_eq!(seq.to_vec(), owned(&["hello"]));
    assert_eq!(seq.clone().into_string_sequence().to_vec(), owned(&["hello"]));
    assert_eq!(seq.text(), "hello");

    seq.push_back("world");
    assert_eq!(seq.to_vec(), owned(&["hello", "world"]));
    assert_eq!(seq.clone().into_string_sequence().to_vec(), owned(&["hello", "world"]));
    assert_eq!(seq.text(), "helloworld");

    seq.insert(0, "!");
    assert_eq!(seq.to_vec(), owned(&["!", "hello", "world"]));
    assert_eq!(seq.clone().into_string_sequence().to_vec(), owned(&["!", "hello", "world"]));
    assert_eq!(seq.text(), "!helloworld");

    seq.insert(0, "howdy");
    assert_eq!(seq.to_vec(), owned(&["howdy", "!", "hello", "world"]));
    assert_eq!(
        seq.clone().into_string_sequence().to_vec(),
        owned(&["howdy", "!", "hello", "world"])
    );
    assert_eq!(seq.text(), "howdy!helloworld");

    assert_eq!(seq.drain(1..3).into_vec(), owned(&["!", "hello"]));
    assert_eq!(seq.to_vec(), owned(&["howdy", "world"]));
    assert_eq!(seq.clone().into_string_sequence().to_vec(), owned(&["howdy", "world"]));
    assert_eq!(seq.text(), "howdyworld");

    assert_eq!(seq.drain(0..0).len(), 0);
    assert_eq!(seq.to_vec(), owned(&["howdy", "world"]));

    let mut chained = seq.clone().drain(..).into_vec();
    chained.append(&mut seq.clone().drain(..).into_vec());
    seq.extend(&chained);
    assert_eq!(
        seq.to_vec(),
        owned(&["howdy", "world", "howdy", "world", "howdy", "world"])
    );
}
