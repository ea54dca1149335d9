use playfair_cipher_rs::Playfair;

const TEST_KEY: &str = "playfair example";

fn all_letters(table: &[[char; 5]; 5]) -> Vec<char> {
    let mut v: Vec<char> = table.iter().flat_map(|row| row.iter().copied()).collect();
    v.sort();
    v
}

#[test]
fn table_holds_each_letter_once() {
    let expected: Vec<char> = "ABCDEFGHIKLMNOPQRSTUVWXYZ".chars().collect();
    for key in ["", "playfair example", "Jump over 42 lazy dogs!", "zzzz", "ÉCOLE ß"] {
        let table = Playfair::create_table(key.to_string());
        assert_eq!(all_letters(&table), expected, "key {:?}", key);
    }
}

#[test]
fn empty_key_gives_plain_alphabet() {
    let table = Playfair::create_table(String::new());
    assert_eq!(table[0], ['A', 'B', 'C', 'D', 'E']);
    assert_eq!(table[1], ['F', 'G', 'H', 'I', 'K']);
    assert_eq!(table[2], ['L', 'M', 'N', 'O', 'P']);
    assert_eq!(table[3], ['Q', 'R', 'S', 'T', 'U']);
    assert_eq!(table[4], ['V', 'W', 'X', 'Y', 'Z']);
}

#[test]
fn table_begins_with_key_letters() {
    let table = Playfair::create_table("Jazz jam".to_string());
    assert_eq!(table[0], ['I', 'A', 'Z', 'M', 'B']);
    assert_eq!(table[1], ['C', 'D', 'E', 'F', 'G']);
}

#[test]
fn key_characters_outside_the_alphabet_are_dropped() {
    assert_eq!(
        Playfair::create_table("Playfair, example 123!".to_string()),
        Playfair::create_table(TEST_KEY.to_string())
    );
}

#[test]
fn table_layout_for_the_example_key() {
    let table = Playfair::create_table(TEST_KEY.to_string());
    assert_eq!(table[0], ['P', 'L', 'A', 'Y', 'F']);
    assert_eq!(table[1], ['I', 'R', 'E', 'X', 'M']);
    assert_eq!(table[2], ['B', 'C', 'D', 'G', 'H']);
    assert_eq!(table[3], ['K', 'N', 'O', 'Q', 'S']);
    assert_eq!(table[4], ['T', 'U', 'V', 'W', 'Z']);
}

#[test]
fn rectangle_pairs_come_back() {
    let playfair = Playfair::new(TEST_KEY.to_string());
    assert_eq!(playfair.encrypt_pair('A', 'B'), "PD");
    assert_eq!(playfair.encrypt_pair('P', 'D'), "AB");
    assert_eq!(playfair.decrypt_pair('P', 'D'), "AB");
    assert_eq!(playfair.encrypt_pair('L', 'O'), "AN");
    assert_eq!(playfair.encrypt_pair('A', 'N'), "LO");
}

#[test]
fn every_pair_decrypts_back() {
    let playfair = Playfair::new(TEST_KEY.to_string());
    let letters: Vec<char> = "ABCDEFGHIKLMNOPQRSTUVWXYZ".chars().collect();
    for &a in &letters {
        for &b in &letters {
            let e: Vec<char> = playfair.encrypt_pair(a, b).chars().collect();
            assert_eq!(playfair.decrypt_pair(e[0], e[1]), format!("{a}{b}"));
        }
    }
}

#[test]
fn rows_and_columns_wrap_around() {
    let playfair = Playfair::new(TEST_KEY.to_string());
    assert_eq!(playfair.encrypt_pair('F', 'A'), "PY");
    assert_eq!(playfair.decrypt_pair('P', 'Y'), "FA");
    assert_eq!(playfair.encrypt_pair('T', 'P'), "PI");
    assert_eq!(playfair.decrypt_pair('P', 'I'), "TP");
}

#[test]
fn known_vector_round_trip_is_not_verbatim() {
    let playfair = Playfair::new(TEST_KEY.to_string());
    let plain = "Hide the gold in the tree stump";
    let back = playfair.decrypt(playfair.encrypt(plain.to_string()));
    assert_eq!(back, "HIDETHEGOLDINTHETREXESTUMP");
    assert_ne!(back, plain);
}

#[test]
fn spaces_and_case_do_not_change_ciphertext() {
    let playfair = Playfair::new(TEST_KEY.to_string());
    let canonical = playfair.encrypt("HIDETHEGOLDINTHETREESTUMP".to_string());
    assert_eq!(canonical, "BMODZBXDNABEKUDMUIXMMOUVIF");
    assert_eq!(playfair.encrypt("  hIdE  tHe gold in the   tree stump ".to_string()), canonical);
    assert_eq!(playfair.encrypt("hide the gold in the tree stump".to_string()), canonical);
    assert_eq!(playfair.encrypt("Hide, the gold: in the tree stump!".to_string()), canonical);
}

#[test]
fn encrypt_uppercase_reads_letters_only() {
    let playfair = Playfair::new(TEST_KEY.to_string());
    assert_eq!(
        playfair.encrypt_uppercase("HIDE THE GOLD IN THE TREE STUMP"),
        "BMODZBXDNABEKUDMUIXMMOUVIF"
    );
    assert_eq!(playfair.encrypt_uppercase("hide"), "");
}

#[test]
fn doubled_letters_get_the_filler() {
    let playfair = Playfair::new(TEST_KEY.to_string());
    assert_eq!(playfair.encrypt("balloon".to_string()), "DPYRANQO");
    assert_eq!(playfair.decrypt("DPYRANQO".to_string()), "BALXLOON");
}

#[test]
fn filler_is_configurable() {
    let playfair = Playfair::with_filler(TEST_KEY.to_string(), 'Z');
    assert_eq!(playfair.encrypt("balloon".to_string()), "DPFUANQO");
    assert_eq!(playfair.encrypt("A".to_string()), "FV");
}

#[test]
fn lone_last_letter_gets_the_filler() {
    let playfair = Playfair::new(TEST_KEY.to_string());
    assert_eq!(playfair.encrypt("ab c".to_string()), "PDGR");
    assert_eq!(playfair.encrypt("x".to_string()), "MM");
}

#[test]
fn j_is_read_as_i() {
    let playfair = Playfair::new(TEST_KEY.to_string());
    assert_eq!(playfair.encrypt("jo".to_string()), playfair.encrypt("io".to_string()));
}

#[test]
fn empty_text() {
    let playfair = Playfair::new(TEST_KEY.to_string());
    assert_eq!(playfair.encrypt(String::new()), "");
    assert_eq!(playfair.encrypt("  123 ".to_string()), "");
    assert_eq!(playfair.decrypt(String::new()), "");
}

#[test]
fn decrypt_keeps_the_well_formed_prefix() {
    let playfair = Playfair::new(TEST_KEY.to_string());
    assert_eq!(playfair.decrypt("BMO".to_string()), "HI");
    assert_eq!(playfair.decrypt("BMJDBM".to_string()), "HI");
    assert_eq!(playfair.decrypt("BM OD".to_string()), "HI");
    assert_eq!(playfair.decrypt("bm".to_string()), "");
}
