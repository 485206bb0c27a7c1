use rustorrent::bencode::{
    bencode_dictionary, bencode_integer, bencode_list, bencode_string, BencodeBlob, BencodeValue,
};

fn blob<'a>(source: &'a [u8], value: BencodeValue<'a>) -> BencodeBlob<'a> {
    BencodeBlob { source, value }
}

#[test]
fn check_bencode_string() {
    assert_eq!(
        bencode_string(b"5:UTF-8"),
        Ok((&vec![][..], BencodeValue::String(b"UTF-8")))
    );
}

#[test]
fn check_bencode_integer() {
    assert_eq!(
        bencode_integer(b"i3e"),
        Ok((&vec![][..], BencodeValue::Integer(3)))
    );
}

#[test]
fn check_bencode_list() {
    assert_eq!(
        bencode_list(b"l5:UTF-8i3ee"),
        Ok((
            &vec![][..],
            BencodeValue::List(vec![
                blob(b"5:UTF-8", BencodeValue::String(b"UTF-8")),
                blob(b"i3e", BencodeValue::Integer(3))
            ])
        ))
    );
}

#[test]
fn check_bencode_dictionary() {
    assert_eq!(
        bencode_dictionary(b"d3:cow3:moo4:spam4:eggse"),
        Ok((
            &vec![][..],
            BencodeValue::Dictionary(
                vec![
                    ("cow", blob(b"3:moo", BencodeValue::String(b"moo"))),
                    ("spam", blob(b"4:eggs", BencodeValue::String(b"eggs")))
                ]
                .into_iter()
                .collect()
            )
        ))
    );

    assert_eq!(
        bencode_dictionary(b"d4:spaml1:a1:bee"),
        Ok((
            &vec![][..],
            BencodeValue::Dictionary(
                vec![(
                    "spam",
                    blob(
                        b"l1:a1:be",
                        BencodeValue::List(vec![
                            blob(b"1:a", BencodeValue::String(b"a")),
                            blob(b"1:b", BencodeValue::String(b"b"))
                        ])
                    )
                ),]
                .into_iter()
                .collect()
            )
        ))
    );
}
