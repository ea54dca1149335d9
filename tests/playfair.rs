use playfair_cipher_rs::Playfair;

const TEST_KEY: &str = "playfair example";

#[test]
fn test_display_table() {
    let playfair = Playfair::new(TEST_KEY.to_string());
    assert_eq!(
        playfair.to_string(),
        "key: playfair example\ntable:\nP L A Y F \nI R E X M \nB C D G H \nK N O Q S \nT U V W Z \n"
    );
}

#[test]
fn lib_test_create_table() {
    let table = Playfair::create_table(TEST_KEY.to_string());
    assert_eq!(table[0][0], 'P');
    assert_eq!(table[0][1], 'L');
    assert_eq!(table[0][2], 'A');
    assert_eq!(table[0][3], 'Y');
    assert_eq!(table[0][4], 'F');
    assert_eq!(table[1][0], 'I');
    assert_eq!(table[1][1], 'R');
    assert_eq!(table[1][2], 'E');
    assert_eq!(table[1][3], 'X');
    assert_eq!(table[1][4], 'M');
    assert_eq!(table[2][0], 'B');
    assert_eq!(table[2][1], 'C');
    assert_eq!(table[2][2], 'D');
    assert_eq!(table[2][3], 'G');
    assert_eq!(table[2][4], 'H');
    assert_eq!(table[3][0], 'K');
    assert_eq!(table[3][1], 'N');
    assert_eq!(table[3][2], 'O');
    assert_eq!(table[3][3], 'Q');
    assert_eq!(table[3][4], 'S');
    assert_eq!(table[4][0], 'T');
    assert_eq!(table[4][1], 'U');
    assert_eq!(table[4][2], 'V');
    assert_eq!(table[4][3], 'W');
    assert_eq!(table[4][4], 'Z');
}

#[test]
fn test_get_index() {
    let playfair = Playfair::new(TEST_KEY.to_string());
    assert_eq!(playfair.get_index('P'), (0, 0));
    assert_eq!(playfair.get_index('L'), (0, 1));
    assert_eq!(playfair.get_index('A'), (0, 2));
    assert_eq!(playfair.get_index('Y'), (0, 3));
    assert_eq!(playfair.get_index('F'), (0, 4));
    assert_eq!(playfair.get_index('I'), (1, 0));
    assert_eq!(playfair.get_index('R'), (1, 1));
    assert_eq!(playfair.get_index('E'), (1, 2));
    assert_eq!(playfair.get_index('X'), (1, 3));
    assert_eq!(playfair.get_index('M'), (1, 4));
    assert_eq!(playfair.get_index('B'), (2, 0));
    assert_eq!(playfair.get_index('C'), (2, 1));
    assert_eq!(playfair.get_index('D'), (2, 2));
    assert_eq!(playfair.get_index('G'), (2, 3));
    assert_eq!(playfair.get_index('H'), (2, 4));
    assert_eq!(playfair.get_index('K'), (3, 0));
    assert_eq!(playfair.get_index('N'), (3, 1));
    assert_eq!(playfair.get_index('O'), (3, 2));
    assert_eq!(playfair.get_index('Q'), (3, 3));
    assert_eq!(playfair.get_index('S'), (3, 4));
    assert_eq!(playfair.get_index('T'), (4, 0));
    assert_eq!(playfair.get_index('U'), (4, 1));
    assert_eq!(playfair.get_index('V'), (4, 2));
    assert_eq!(playfair.get_index('W'), (4, 3));
    assert_eq!(playfair.get_index('Z'), (4, 4));
}

#[test]
fn test_encrypt_pair() {
    let playfair = Playfair::new(TEST_KEY.to_string());
    assert_eq!(playfair.encrypt_pair('H', 'E'), "DM");
    assert_eq!(playfair.encrypt_pair('P', 'I'), "IB");
    assert_eq!(playfair.encrypt_pair('A', 'B'), "PD");
    assert_eq!(playfair.encrypt_pair('R', 'M'), "EI");
}

#[test]
fn test_encrypt() {
    let playfair = Playfair::new(TEST_KEY.to_string());
    assert_eq!(
        playfair.encrypt("Hide the gold in the tree stump".to_string()),
        "BMODZBXDNABEKUDMUIXMMOUVIF"
    );
}

#[test]
fn test_decrypt_pair() {
    let playfair = Playfair::new(TEST_KEY.to_string());
    assert_eq!(playfair.decrypt_pair('D', 'M'), "HE");
    assert_eq!(playfair.decrypt_pair('I', 'B'), "PI");
    assert_eq!(playfair.decrypt_pair('P', 'D'), "AB");
    assert_eq!(playfair.decrypt_pair('E', 'I'), "RM");
}

#[test]
fn test_decrypt() {
    let playfair = Playfair::new(TEST_KEY.to_string());
    assert_eq!(
        playfair.decrypt("BMODZBXDNABEKUDMUIXMMOUVIF".to_string()),
        "HIDETHEGOLDINTHETREXESTUMP"
    );
}
