use vstd::prelude::*;

verus! {

/// The 256 four-letter words, in index order, written back to back.
pub const WORDS: &'static str = "ableacidalsoapexaquaarchatomauntawayaxisbackbaldbarnbeltbetabiasbluebodybragbrewbulbbuzzcalmcashcatschefcityclawcodecolacookcostcruxcurlcuspcyandarkdatadaysdelidicedietdoordowndrawdropdrumdulldutyeacheasyechoedgeepicevenexamexiteyesfactfairfernfigsfilmfishfizzflapflewfluxfoxyfreefrogfuelfundgalagamegeargemsgiftgirlglowgoodgraygrimgurugushgyrohalfhanghardhawkheathelphighhillholyhopehornhutsicedideaidleinchinkyintoirisironitemjadejazzjoinjoltjowljudojugsjumpjunkjurykeepkenokeptkeyskickkilnkingkitekiwiknoblamblavalazyleaflegsliarlimplionlistlogoloudloveluaulucklungmainmanymathmazememomenumeowmildmintmissmonknailnavyneednewsnextnoonnotenumbobeyoboeomitonyxopenovalowlspaidpartpeckplaypluspoempoolposepuffpumapurrquadquizraceramprealredorichroadrockroofrubyruinrunsrustsafesagascarsetssilkskewslotsoapsolosongstubsurfswantacotasktaxitenttiedtimetinytoiltombtoystriptunatwinuglyundouniturgeuservastveryvetovialvibeviewvisavoidvowswallwandwarmwaspwavewaxywebswhatwhenwhizwolfworkyankyawnyellyogayurtzapszerozestzinczonezoom";

/// The word that stands for byte `i`.
pub open spec fn word(i: int) -> Seq<char> {
    WORDS@.subrange(4 * i, 4 * i + 4)
}

/// The two-letter form of the word for byte `i`: its first and last letters.
pub open spec fn short_word(i: int) -> Seq<char> {
    seq![WORDS@[4 * i], WORDS@[4 * i + 3]]
}

/// The byte whose word starts with `a` and ends with `b`; 256 when there is none.
pub open spec fn short_word_index(a: char, b: char) -> int {
    match (a, b) {
        ('a', 'e') => 0, ('a', 'd') => 1, ('a', 'o') => 2, ('a', 'x') => 3,
        ('a', 'a') => 4, ('a', 'h') => 5, ('a', 'm') => 6, ('a', 't') => 7,
        ('a', 'y') => 8, ('a', 's') => 9, ('b', 'k') => 10, ('b', 'd') => 11,
        ('b', 'n') => 12, ('b', 't') => 13, ('b', 'a') => 14, ('b', 's') => 15,
        ('b', 'e') => 16, ('b', 'y') => 17, ('b', 'g') => 18, ('b', 'w') => 19,
        ('b', 'b') => 20, ('b', 'z') => 21, ('c', 'm') => 22, ('c', 'h') => 23,
        ('c', 's') => 24, ('c', 'f') => 25, ('c', 'y') => 26, ('c', 'w') => 27,
        ('c', 'e') => 28, ('c', 'a') => 29, ('c', 'k') => 30, ('c', 't') => 31,
        ('c', 'x') => 32, ('c', 'l') => 33, ('c', 'p') => 34, ('c', 'n') => 35,
        ('d', 'k') => 36, ('d', 'a') => 37, ('d', 's') => 38, ('d', 'i') => 39,
        ('d', 'e') => 40, ('d', 't') => 41, ('d', 'r') => 42, ('d', 'n') => 43,
        ('d', 'w') => 44, ('d', 'p') => 45, ('d', 'm') => 46, ('d', 'l') => 47,
        ('d', 'y') => 48, ('e', 'h') => 49, ('e', 'y') => 50, ('e', 'o') => 51,
        ('e', 'e') => 52, ('e', 'c') => 53, ('e', 'n') => 54, ('e', 'm') => 55,
        ('e', 't') => 56, ('e', 's') => 57, ('f', 't') => 58, ('f', 'r') => 59,
        ('f', 'n') => 60, ('f', 's') => 61, ('f', 'm') => 62, ('f', 'h') => 63,
        ('f', 'z') => 64, ('f', 'p') => 65, ('f', 'w') => 66, ('f', 'x') => 67,
        ('f', 'y') => 68, ('f', 'e') => 69, ('f', 'g') => 70, ('f', 'l') => 71,
        ('f', 'd') => 72, ('g', 'a') => 73, ('g', 'e') => 74, ('g', 'r') => 75,
        ('g', 's') => 76, ('g', 't') => 77, ('g', 'l') => 78, ('g', 'w') => 79,
        ('g', 'd') => 80, ('g', 'y') => 81, ('g', 'm') => 82, ('g', 'u') => 83,
        ('g', 'h') => 84, ('g', 'o') => 85, ('h', 'f') => 86, ('h', 'g') => 87,
        ('h', 'd') => 88, ('h', 'k') => 89, ('h', 't') => 90, ('h', 'p') => 91,
        ('h', 'h') => 92, ('h', 'l') => 93, ('h', 'y') => 94, ('h', 'e') => 95,
        ('h', 'n') => 96, ('h', 's') => 97, ('i', 'd') => 98, ('i', 'a') => 99,
        ('i', 'e') => 100, ('i', 'h') => 101, ('i', 'y') => 102, ('i', 'o') => 103,
        ('i', 's') => 104, ('i', 'n') => 105, ('i', 'm') => 106, ('j', 'e') => 107,
        ('j', 'z') => 108, ('j', 'n') => 109, ('j', 't') => 110, ('j', 'l') => 111,
        ('j', 'o') => 112, ('j', 's') => 113, ('j', 'p') => 114, ('j', 'k') => 115,
        ('j', 'y') => 116, ('k', 'p') => 117, ('k', 'o') => 118, ('k', 't') => 119,
        ('k', 's') => 120, ('k', 'k') => 121, ('k', 'n') => 122, ('k', 'g') => 123,
        ('k', 'e') => 124, ('k', 'i') => 125, ('k', 'b') => 126, ('l', 'b') => 127,
        ('l', 'a') => 128, ('l', 'y') => 129, ('l', 'f') => 130, ('l', 's') => 131,
        ('l', 'r') => 132, ('l', 'p') => 133, ('l', 'n') => 134, ('l', 't') => 135,
        ('l', 'o') => 136, ('l', 'd') => 137, ('l', 'e') => 138, ('l', 'u') => 139,
        ('l', 'k') => 140, ('l', 'g') => 141, ('m', 'n') => 142, ('m', 'y') => 143,
        ('m', 'h') => 144, ('m', 'e') => 145, ('m', 'o') => 146, ('m', 'u') => 147,
        ('m', 'w') => 148, ('m', 'd') => 149, ('m', 't') => 150, ('m', 's') => 151,
        ('m', 'k') => 152, ('n', 'l') => 153, ('n', 'y') => 154, ('n', 'd') => 155,
        ('n', 's') => 156, ('n', 't') => 157, ('n', 'n') => 158, ('n', 'e') => 159,
        ('n', 'b') => 160, ('o', 'y') => 161, ('o', 'e') => 162, ('o', 't') => 163,
        ('o', 'x') => 164, ('o', 'n') => 165, ('o', 'l') => 166, ('o', 's') => 167,
        ('p', 'd') => 168, ('p', 't') => 169, ('p', 'k') => 170, ('p', 'y') => 171,
        ('p', 's') => 172, ('p', 'm') => 173, ('p', 'l') => 174, ('p', 'e') => 175,
        ('p', 'f') => 176, ('p', 'a') => 177, ('p', 'r') => 178, ('q', 'd') => 179,
        ('q', 'z') => 180, ('r', 'e') => 181, ('r', 'p') => 182, ('r', 'l') => 183,
        ('r', 'o') => 184, ('r', 'h') => 185, ('r', 'd') => 186, ('r', 'k') => 187,
        ('r', 'f') => 188, ('r', 'y') => 189, ('r', 'n') => 190, ('r', 's') => 191,
        ('r', 't') => 192, ('s', 'e') => 193, ('s', 'a') => 194, ('s', 'r') => 195,
        ('s', 's') => 196, ('s', 'k') => 197, ('s', 'w') => 198, ('s', 't') => 199,
        ('s', 'p') => 200, ('s', 'o') => 201, ('s', 'g') => 202, ('s', 'b') => 203,
        ('s', 'f') => 204, ('s', 'n') => 205, ('t', 'o') => 206, ('t', 'k') => 207,
        ('t', 'i') => 208, ('t', 't') => 209, ('t', 'd') => 210, ('t', 'e') => 211,
        ('t', 'y') => 212, ('t', 'l') => 213, ('t', 'b') => 214, ('t', 's') => 215,
        ('t', 'p') => 216, ('t', 'a') => 217, ('t', 'n') => 218, ('u', 'y') => 219,
        ('u', 'o') => 220, ('u', 't') => 221, ('u', 'e') => 222, ('u', 'r') => 223,
        ('v', 't') => 224, ('v', 'y') => 225, ('v', 'o') => 226, ('v', 'l') => 227,
        ('v', 'e') => 228, ('v', 'w') => 229, ('v', 'a') => 230, ('v', 'd') => 231,
        ('v', 's') => 232, ('w', 'l') => 233, ('w', 'd') => 234, ('w', 'm') => 235,
        ('w', 'p') => 236, ('w', 'e') => 237, ('w', 'y') => 238, ('w', 's') => 239,
        ('w', 't') => 240, ('w', 'n') => 241, ('w', 'z') => 242, ('w', 'f') => 243,
        ('w', 'k') => 244, ('y', 'k') => 245, ('y', 'n') => 246, ('y', 'l') => 247,
        ('y', 'a') => 248, ('y', 't') => 249, ('z', 's') => 250, ('z', 'o') => 251,
        ('z', 't') => 252, ('z', 'c') => 253, ('z', 'e') => 254, ('z', 'm') => 255,
        _ => 256,
    }
}

/// A lower-case ASCII letter.
pub open spec fn is_letter(c: char) -> bool {
    'a' <= c && c <= 'z'
}

/// The word for byte `i` is four letters, and its two-letter form leads back to `i`.
pub open spec fn word_entry_ok(i: int) -> bool {
    &&& is_letter(WORDS@[4 * i])
    &&& is_letter(WORDS@[4 * i + 1])
    &&& is_letter(WORDS@[4 * i + 2])
    &&& is_letter(WORDS@[4 * i + 3])
    &&& short_word_index(WORDS@[4 * i], WORDS@[4 * i + 3]) == i
}

/// Every byte below `k` is found again from the two letters of its short form.
pub open spec fn table_inverts_upto(k: nat) -> bool
    decreases k,
{
    if k == 0 {
        true
    } else {
        table_inverts_upto((k - 1) as nat) && word_entry_ok(k - 1)
    }
}

proof fn lemma_table_inverts_upto(k: nat, i: int)
    requires
        table_inverts_upto(k),
        0 <= i < k,
    ensures
        word_entry_ok(i),
    decreases k,
{
    if i < k - 1 {
        lemma_table_inverts_upto((k - 1) as nat, i);
    }
}

/// Facts about the word table: its length, that it is ASCII, and that the
/// two-letter form of each word identifies it.
pub proof fn lemma_word_table()
    ensures
        WORDS@.len() == 1024,
        WORDS.is_ascii(),
        forall|i: int| 0 <= i < 256 ==> #[trigger] word_entry_ok(i),
{
    reveal_strlit("ableacidalsoapexaquaarchatomauntawayaxisbackbaldbarnbeltbetabiasbluebodybragbrewbulbbuzzcalmcashcatschefcityclawcodecolacookcostcruxcurlcuspcyandarkdatadaysdelidicedietdoordowndrawdropdrumdulldutyeacheasyechoedgeepicevenexamexiteyesfactfairfernfigsfilmfishfizzflapflewfluxfoxyfreefrogfuelfundgalagamegeargemsgiftgirlglowgoodgraygrimgurugushgyrohalfhanghardhawkheathelphighhillholyhopehornhutsicedideaidleinchinkyintoirisironitemjadejazzjoinjoltjowljudojugsjumpjunkjurykeepkenokeptkeyskickkilnkingkitekiwiknoblamblavalazyleaflegsliarlimplionlistlogoloudloveluaulucklungmainmanymathmazememomenumeowmildmintmissmonknailnavyneednewsnextnoonnotenumbobeyoboeomitonyxopenovalowlspaidpartpeckplaypluspoempoolposepuffpumapurrquadquizraceramprealredorichroadrockroofrubyruinrunsrustsafesagascarsetssilkskewslotsoapsolosongstubsurfswantacotasktaxitenttiedtimetinytoiltombtoystriptunatwinuglyundouniturgeuservastveryvetovialvibeviewvisavoidvowswallwandwarmwaspwavewaxywebswhatwhenwhizwolfworkyankyawnyellyogayurtzapszerozestzinczonezoom");
    // The table is checked sixteen entries at a time, each step unfolding
    // the definition from the previous one.
    reveal_with_fuel(table_inverts_upto, 17);
    assert(table_inverts_upto(0));
    assert(table_inverts_upto(16));
    assert(table_inverts_upto(32));
    assert(table_inverts_upto(48));
    assert(table_inverts_upto(64));
    assert(table_inverts_upto(80));
    assert(table_inverts_upto(96));
    assert(table_inverts_upto(112));
    assert(table_inverts_upto(128));
    assert(table_inverts_upto(144));
    assert(table_inverts_upto(160));
    assert(table_inverts_upto(176));
    assert(table_inverts_upto(192));
    assert(table_inverts_upto(208));
    assert(table_inverts_upto(224));
    assert(table_inverts_upto(240));
    assert(table_inverts_upto(256));
    assert forall|i: int| 0 <= i < 256 implies #[trigger] word_entry_ok(i) by {
        lemma_table_inverts_upto(256, i);
    }
}


/// Distinct bytes have distinct two-letter forms.
pub proof fn lemma_short_words_distinct(i: int, j: int)
    requires
        0 <= i < 256,
        0 <= j < 256,
        i != j,
    ensures
        short_word(i) != short_word(j),
{
    lemma_word_table();
    assert(word_entry_ok(i));
    assert(word_entry_ok(j));
    if short_word(i) == short_word(j) {
        assert(short_word(i)[0] == short_word(j)[0]);
        assert(short_word(i)[1] == short_word(j)[1]);
    }
}

/// The text that stands for byte `b`: its word, or its two-letter form.
pub open spec fn token(b: u8, minimal: bool) -> Seq<char> {
    if minimal {
        short_word(b as int)
    } else {
        word(b as int)
    }
}

/// The byte that the text `t` stands for, if any, read through the table of
/// two-letter forms.
pub open spec fn table_value(t: Seq<char>, minimal: bool) -> Option<u8> {
    if minimal {
        if t.len() == 2 && short_word_index(t[0], t[1]) < 256 && short_word(
            short_word_index(t[0], t[1]),
        ) == t {
            Some(short_word_index(t[0], t[1]) as u8)
        } else {
            None
        }
    } else {
        if t.len() == 4 && short_word_index(t[0], t[3]) < 256 && word(short_word_index(t[0], t[3]))
            == t {
            Some(short_word_index(t[0], t[3]) as u8)
        } else {
            None
        }
    }
}

proof fn lemma_table_value_of_token(b: u8, t: Seq<char>, minimal: bool)
    ensures
        table_value(token(b, minimal), minimal) == Some(b),
        table_value(t, minimal) == Some(b) ==> t == token(b, minimal),
{
    lemma_word_table();
    assert(word_entry_ok(b as int));
    assert(word(b as int)[0] == WORDS@[4 * b]);
    assert(word(b as int)[3] == WORDS@[4 * b + 3]);
}

/// The byte that the text `t` stands for, if any.
pub open spec fn token_value(t: Seq<char>, minimal: bool) -> Option<u8> {
    if exists|b: u8| token(b, minimal) == t {
        Some(choose|b: u8| token(b, minimal) == t)
    } else {
        None
    }
}

proof fn lemma_table_value(t: Seq<char>, minimal: bool)
    ensures
        table_value(t, minimal) == token_value(t, minimal),
{
    lemma_word_table();
    if exists|b: u8| token(b, minimal) == t {
        let c = choose|b: u8| token(b, minimal) == t;
        lemma_table_value_of_token(c, t, minimal);
    } else {
        match table_value(t, minimal) {
            Some(b) => {
                lemma_table_value_of_token(b, t, minimal);
                assert(token(b, minimal) == t);
            },
            None => {},
        }
    }
}

/// Each byte's text leads back to that byte, and only there.
pub proof fn lemma_token_value(b: u8, t: Seq<char>, minimal: bool)
    ensures
        token_value(token(b, minimal), minimal) == Some(b),
        token_value(t, minimal) == Some(b) ==> t == token(b, minimal),
{
    lemma_table_value_of_token(b, t, minimal);
    lemma_table_value(t, minimal);
    lemma_table_value(token(b, minimal), minimal);
}

/// The text for `bytes`: their words joined by single spaces, or their
/// two-letter forms run together.
pub open spec fn words_text(bytes: Seq<u8>, minimal: bool) -> Seq<char>
    decreases bytes.len(),
{
    if bytes.len() == 0 {
        seq![]
    } else if bytes.len() == 1 || minimal {
        words_text(bytes.drop_last(), minimal) + token(bytes.last(), minimal)
    } else {
        words_text(bytes.drop_last(), minimal) + seq![' '] + token(bytes.last(), minimal)
    }
}

/// The CRC-32 (ISO-HDLC) checksum of `data`.
pub uninterp spec fn crc32_of(data: Seq<u8>) -> u32;

/// The four bytes of `x`, most significant first.
pub open spec fn be_bytes(x: u32) -> Seq<u8> {
    seq![(x >> 24u32) as u8, (x >> 16u32) as u8, (x >> 8u32) as u8, x as u8]
}

/// The checksum appended to a payload: its CRC-32, big-endian.
pub open spec fn checksum(data: Seq<u8>) -> Seq<u8> {
    be_bytes(crc32_of(data))
}

/// The Bytewords text of `data`: the words of the payload followed by those of
/// its checksum.
pub open spec fn encoded(data: Seq<u8>, minimal: bool) -> Seq<char> {
    words_text(data + checksum(data), minimal)
}

/// Relies on crc's `Crc::<u32>::checksum` with the `CRC_32_ISO_HDLC` algorithm:
/// the checksum of the bytes, which depends on them alone.
#[verifier::external_body]
fn crc32(bytes: &[u8]) -> (r: u32)
    ensures
        r == crc32_of(bytes@),
{
    crc::Crc::<u32>::new(&crc::CRC_32_ISO_HDLC).checksum(bytes)
}

/// The checksum of `bytes`, as four bytes.
fn byteword_checksum(bytes: &[u8]) -> (r: Vec<u8>)
    ensures
        r@ == checksum(bytes@),
{
    let x = crc32(bytes);
    let mut r: Vec<u8> = Vec::new();
    r.push((x >> 24u32) as u8);
    r.push((x >> 16u32) as u8);
    r.push((x >> 8u32) as u8);
    r.push(x as u8);
    assert(r@ =~= checksum(bytes@));
    r
}

/// The byte whose word starts with `a` and ends with `b`, or 256.
fn short_word_lookup(a: char, b: char) -> (r: u16)
    ensures
        r as int == short_word_index(a, b),
{
    match (a, b) {
        ('a', 'e') => 0, ('a', 'd') => 1, ('a', 'o') => 2, ('a', 'x') => 3,
        ('a', 'a') => 4, ('a', 'h') => 5, ('a', 'm') => 6, ('a', 't') => 7,
        ('a', 'y') => 8, ('a', 's') => 9, ('b', 'k') => 10, ('b', 'd') => 11,
        ('b', 'n') => 12, ('b', 't') => 13, ('b', 'a') => 14, ('b', 's') => 15,
        ('b', 'e') => 16, ('b', 'y') => 17, ('b', 'g') => 18, ('b', 'w') => 19,
        ('b', 'b') => 20, ('b', 'z') => 21, ('c', 'm') => 22, ('c', 'h') => 23,
        ('c', 's') => 24, ('c', 'f') => 25, ('c', 'y') => 26, ('c', 'w') => 27,
        ('c', 'e') => 28, ('c', 'a') => 29, ('c', 'k') => 30, ('c', 't') => 31,
        ('c', 'x') => 32, ('c', 'l') => 33, ('c', 'p') => 34, ('c', 'n') => 35,
        ('d', 'k') => 36, ('d', 'a') => 37, ('d', 's') => 38, ('d', 'i') => 39,
        ('d', 'e') => 40, ('d', 't') => 41, ('d', 'r') => 42, ('d', 'n') => 43,
        ('d', 'w') => 44, ('d', 'p') => 45, ('d', 'm') => 46, ('d', 'l') => 47,
        ('d', 'y') => 48, ('e', 'h') => 49, ('e', 'y') => 50, ('e', 'o') => 51,
        ('e', 'e') => 52, ('e', 'c') => 53, ('e', 'n') => 54, ('e', 'm') => 55,
        ('e', 't') => 56, ('e', 's') => 57, ('f', 't') => 58, ('f', 'r') => 59,
        ('f', 'n') => 60, ('f', 's') => 61, ('f', 'm') => 62, ('f', 'h') => 63,
        ('f', 'z') => 64, ('f', 'p') => 65, ('f', 'w') => 66, ('f', 'x') => 67,
        ('f', 'y') => 68, ('f', 'e') => 69, ('f', 'g') => 70, ('f', 'l') => 71,
        ('f', 'd') => 72, ('g', 'a') => 73, ('g', 'e') => 74, ('g', 'r') => 75,
        ('g', 's') => 76, ('g', 't') => 77, ('g', 'l') => 78, ('g', 'w') => 79,
        ('g', 'd') => 80, ('g', 'y') => 81, ('g', 'm') => 82, ('g', 'u') => 83,
        ('g', 'h') => 84, ('g', 'o') => 85, ('h', 'f') => 86, ('h', 'g') => 87,
        ('h', 'd') => 88, ('h', 'k') => 89, ('h', 't') => 90, ('h', 'p') => 91,
        ('h', 'h') => 92, ('h', 'l') => 93, ('h', 'y') => 94, ('h', 'e') => 95,
        ('h', 'n') => 96, ('h', 's') => 97, ('i', 'd') => 98, ('i', 'a') => 99,
        ('i', 'e') => 100, ('i', 'h') => 101, ('i', 'y') => 102, ('i', 'o') => 103,
        ('i', 's') => 104, ('i', 'n') => 105, ('i', 'm') => 106, ('j', 'e') => 107,
        ('j', 'z') => 108, ('j', 'n') => 109, ('j', 't') => 110, ('j', 'l') => 111,
        ('j', 'o') => 112, ('j', 's') => 113, ('j', 'p') => 114, ('j', 'k') => 115,
        ('j', 'y') => 116, ('k', 'p') => 117, ('k', 'o') => 118, ('k', 't') => 119,
        ('k', 's') => 120, ('k', 'k') => 121, ('k', 'n') => 122, ('k', 'g') => 123,
        ('k', 'e') => 124, ('k', 'i') => 125, ('k', 'b') => 126, ('l', 'b') => 127,
        ('l', 'a') => 128, ('l', 'y') => 129, ('l', 'f') => 130, ('l', 's') => 131,
        ('l', 'r') => 132, ('l', 'p') => 133, ('l', 'n') => 134, ('l', 't') => 135,
        ('l', 'o') => 136, ('l', 'd') => 137, ('l', 'e') => 138, ('l', 'u') => 139,
        ('l', 'k') => 140, ('l', 'g') => 141, ('m', 'n') => 142, ('m', 'y') => 143,
        ('m', 'h') => 144, ('m', 'e') => 145, ('m', 'o') => 146, ('m', 'u') => 147,
        ('m', 'w') => 148, ('m', 'd') => 149, ('m', 't') => 150, ('m', 's') => 151,
        ('m', 'k') => 152, ('n', 'l') => 153, ('n', 'y') => 154, ('n', 'd') => 155,
        ('n', 's') => 156, ('n', 't') => 157, ('n', 'n') => 158, ('n', 'e') => 159,
        ('n', 'b') => 160, ('o', 'y') => 161, ('o', 'e') => 162, ('o', 't') => 163,
        ('o', 'x') => 164, ('o', 'n') => 165, ('o', 'l') => 166, ('o', 's') => 167,
        ('p', 'd') => 168, ('p', 't') => 169, ('p', 'k') => 170, ('p', 'y') => 171,
        ('p', 's') => 172, ('p', 'm') => 173, ('p', 'l') => 174, ('p', 'e') => 175,
        ('p', 'f') => 176, ('p', 'a') => 177, ('p', 'r') => 178, ('q', 'd') => 179,
        ('q', 'z') => 180, ('r', 'e') => 181, ('r', 'p') => 182, ('r', 'l') => 183,
        ('r', 'o') => 184, ('r', 'h') => 185, ('r', 'd') => 186, ('r', 'k') => 187,
        ('r', 'f') => 188, ('r', 'y') => 189, ('r', 'n') => 190, ('r', 's') => 191,
        ('r', 't') => 192, ('s', 'e') => 193, ('s', 'a') => 194, ('s', 'r') => 195,
        ('s', 's') => 196, ('s', 'k') => 197, ('s', 'w') => 198, ('s', 't') => 199,
        ('s', 'p') => 200, ('s', 'o') => 201, ('s', 'g') => 202, ('s', 'b') => 203,
        ('s', 'f') => 204, ('s', 'n') => 205, ('t', 'o') => 206, ('t', 'k') => 207,
        ('t', 'i') => 208, ('t', 't') => 209, ('t', 'd') => 210, ('t', 'e') => 211,
        ('t', 'y') => 212, ('t', 'l') => 213, ('t', 'b') => 214, ('t', 's') => 215,
        ('t', 'p') => 216, ('t', 'a') => 217, ('t', 'n') => 218, ('u', 'y') => 219,
        ('u', 'o') => 220, ('u', 't') => 221, ('u', 'e') => 222, ('u', 'r') => 223,
        ('v', 't') => 224, ('v', 'y') => 225, ('v', 'o') => 226, ('v', 'l') => 227,
        ('v', 'e') => 228, ('v', 'w') => 229, ('v', 'a') => 230, ('v', 'd') => 231,
        ('v', 's') => 232, ('w', 'l') => 233, ('w', 'd') => 234, ('w', 'm') => 235,
        ('w', 'p') => 236, ('w', 'e') => 237, ('w', 'y') => 238, ('w', 's') => 239,
        ('w', 't') => 240, ('w', 'n') => 241, ('w', 'z') => 242, ('w', 'f') => 243,
        ('w', 'k') => 244, ('y', 'k') => 245, ('y', 'n') => 246, ('y', 'l') => 247,
        ('y', 'a') => 248, ('y', 't') => 249, ('z', 's') => 250, ('z', 'o') => 251,
        ('z', 't') => 252, ('z', 'c') => 253, ('z', 'e') => 254, ('z', 'm') => 255,
        _ => 256,
    }
}

/// The word for byte `i`.
fn index_to_byteword(i: u8) -> (r: &'static str)
    ensures
        r@ == word(i as int),
        r.is_ascii(),
{
    proof {
        lemma_word_table();
    }
    let at: usize = 4 * (i as usize);
    WORDS.substring_ascii(at, at + 4)
}

/// The two-letter form of a four-letter word: its first and last letters.
fn byteword_to_minimal_string(word: &str) -> (r: String)
    requires
        word@.len() == 4,
        word.is_ascii(),
    ensures
        r@ == seq![word@[0], word@[3]],
{
    let mut r = String::from_str(word.substring_ascii(0, 1));
    r.append(word.substring_ascii(3, 4));
    assert(r@ =~= seq![word@[0], word@[3]]);
    r
}

/// The Bytewords text of `bytes`, with no checksum added.
pub fn byteword_string_no_checksum(bytes: &[u8], minimal: &bool) -> (r: String)
    ensures
        r@ == words_text(bytes@, *minimal),
{
    proof {
        lemma_word_table();
    }
    let mut out = String::new();
    let mut i: usize = 0;
    while i < bytes.len()
        invariant
            i <= bytes@.len(),
            WORDS@.len() == 1024,
            WORDS.is_ascii(),
            out@ == words_text(bytes@.take(i as int), *minimal),
        decreases bytes.len() - i,
    {
        let b = bytes[i];
        if !*minimal && i > 0 {
            out.append(" ");
        }
        let w = index_to_byteword(b);
        if *minimal {
            let short = byteword_to_minimal_string(w);
            out.append(short.as_str());
        } else {
            out.append(w);
        }
        proof {
            let next = bytes@.take(i + 1);
            assert(next.drop_last() =~= bytes@.take(i as int));
            assert(next.last() == b);
            if *minimal {
                assert(seq![w@[0], w@[3]] =~= short_word(b as int));
            } else {
                reveal_strlit(" ");
                assert(" "@.len() == 1);
                assert(" "@ =~= seq![' ']);
            }
            assert(words_text(next, *minimal) == if *minimal || i == 0 {
                words_text(bytes@.take(i as int), *minimal) + token(b, *minimal)
            } else {
                words_text(bytes@.take(i as int), *minimal) + seq![' '] + token(b, *minimal)
            });
        }
        i += 1;
    }
    assert(bytes@.take(bytes@.len() as int) =~= bytes@);
    out
}

/// The Bytewords text of `bytes`, with their checksum appended.
pub fn byteword_string(bytes: &[u8], minimal: &bool) -> (r: String)
    ensures
        r@ == encoded(bytes@, *minimal),
{
    let mut data = vstd::slice::slice_to_vec(bytes);
    let mut sum = byteword_checksum(bytes);
    data.append(&mut sum);
    byteword_string_no_checksum(data.as_slice(), minimal)
}

/// Why a Bytewords text could not be decoded.
#[derive(Debug)]
pub enum BytewordsError {
    /// A piece of the text is not the word, or two-letter form, of any byte.
    UnknownWord(String),
    /// Fewer than five bytes: at least one byte of payload and four of checksum.
    TooShort,
    /// The last four bytes are not the checksum of the others.
    ChecksumMismatch,
}

/// The pieces of `s` between single `sep` characters, empty pieces included.
pub open spec fn pieces(s: Seq<char>, sep: char) -> Seq<Seq<char>>
    decreases s.len(),
{
    if s.len() == 0 {
        seq![seq![]]
    } else {
        let ps = pieces(s.drop_last(), sep);
        if s.last() == sep {
            ps.push(seq![])
        } else {
            ps.update(ps.len() - 1, ps.last().push(s.last()))
        }
    }
}

/// `s` cut into pieces of two characters, the last one shorter when the length is odd.
pub open spec fn chunks_of_two(s: Seq<char>) -> Seq<Seq<char>>
    decreases s.len(),
{
    if s.len() == 0 {
        seq![]
    } else {
        let k = if s.len() % 2 == 0 {
            s.len() - 2
        } else {
            s.len() - 1
        };
        chunks_of_two(s.take(k)).push(s.skip(k))
    }
}

/// The pieces of a Bytewords text, one for each byte.
pub open spec fn tokens(s: Seq<char>, minimal: bool) -> Seq<Seq<char>> {
    if minimal {
        chunks_of_two(s)
    } else {
        pieces(s, ' ')
    }
}

/// Every piece stands for a byte.
pub open spec fn all_known(ts: Seq<Seq<char>>, minimal: bool) -> bool {
    forall|k: int| 0 <= k < ts.len() ==> token_value(#[trigger] ts[k], minimal) is Some
}

/// The bytes that the pieces stand for.
pub open spec fn token_bytes(ts: Seq<Seq<char>>, minimal: bool) -> Seq<u8> {
    ts.map_values(|t: Seq<char>| token_value(t, minimal)->0)
}

/// All but the last four bytes.
pub open spec fn payload_of(bytes: Seq<u8>) -> Seq<u8> {
    bytes.take(bytes.len() - 4)
}

/// The last four bytes are the checksum of the others.
pub open spec fn checksum_holds(bytes: Seq<u8>) -> bool {
    bytes.skip(bytes.len() - 4) == checksum(payload_of(bytes))
}

/// The payload that a Bytewords text carries, if it is a valid one.
pub open spec fn decoded(s: Seq<char>, minimal: bool) -> Option<Seq<u8>> {
    let ts = tokens(s, minimal);
    let bytes = token_bytes(ts, minimal);
    if all_known(ts, minimal) && bytes.len() >= 5 && checksum_holds(bytes) {
        Some(payload_of(bytes))
    } else {
        None
    }
}

/// The texts of the character ranges `spans` of `s`.
pub open spec fn span_texts(spans: Seq<(usize, usize)>, s: Seq<char>) -> Seq<Seq<char>> {
    spans.map_values(|p: (usize, usize)| s.subrange(p.0 as int, p.1 as int))
}

/// Each range lies within a text of length `n`.
pub open spec fn spans_within(spans: Seq<(usize, usize)>, n: int) -> bool {
    forall|k: int| 0 <= k < spans.len() ==> #[trigger] spans[k].0 <= spans[k].1 <= n
}

/// The character ranges of the pieces of `input`.
fn token_spans(input: &str, minimal: bool) -> (r: Vec<(usize, usize)>)
    ensures
        spans_within(r@, input@.len() as int),
        span_texts(r@, input@) == tokens(input@, minimal),
{
    let n = input.unicode_len();
    let mut spans: Vec<(usize, usize)> = Vec::new();
    let mut i: usize = 0;
    if minimal {
        while i < n
            invariant
                i <= n,
                n == input@.len(),
                i % 2 == 0 || i == n,
                spans_within(spans@, n as int),
                span_texts(spans@, input@) == chunks_of_two(input@.take(i as int)),
            decreases n - i,
        {
            let j: usize = if n - i >= 2 {
                i + 2
            } else {
                n
            };
            proof {
                let next = input@.take(j as int);
                assert(next.take(i as int) =~= input@.take(i as int));
                assert(next.skip(i as int) =~= input@.subrange(i as int, j as int));
            }
            spans.push((i, j));
            assert(span_texts(spans@, input@) =~= chunks_of_two(input@.take(i as int)).push(
                input@.subrange(i as int, j as int),
            ));
            i = j;
        }
        assert(input@.take(n as int) =~= input@);
    } else {
        spans = piece_spans(input, ' ');
    }
    spans
}

/// The character ranges of the pieces of `input` between single `sep` characters.
pub fn piece_spans(input: &str, sep: char) -> (r: Vec<(usize, usize)>)
    ensures
        spans_within(r@, input@.len() as int),
        span_texts(r@, input@) == pieces(input@, sep),
{
    let n = input.unicode_len();
    let mut spans: Vec<(usize, usize)> = Vec::new();
    let mut i: usize = 0;
    let mut start: usize = 0;
    assert(input@.take(0) =~= Seq::<char>::empty());
    assert(span_texts(spans@, input@).push(input@.subrange(0, 0)) =~~= seq![seq![]]);
    while i < n
        invariant
            start <= i <= n,
            n == input@.len(),
            spans_within(spans@, n as int),
            span_texts(spans@, input@).push(input@.subrange(start as int, i as int))
                == pieces(input@.take(i as int), sep),
        decreases n - i,
    {
        let c = input.get_char(i);
        let ghost before = span_texts(spans@, input@);
        let ghost ps = pieces(input@.take(i as int), sep);
        proof {
            let next = input@.take(i + 1);
            assert(next.drop_last() =~= input@.take(i as int));
            assert(next.last() == c);
            assert(pieces(next, sep) == if c == sep {
                ps.push(seq![])
            } else {
                ps.update(ps.len() - 1, ps.last().push(c))
            });
            assert(ps == before.push(input@.subrange(start as int, i as int)));
        }
        if c == sep {
            spans.push((start, i));
            assert(span_texts(spans@, input@) =~= before.push(
                input@.subrange(start as int, i as int),
            ));
            start = i + 1;
            assert(span_texts(spans@, input@).push(
                input@.subrange(start as int, i + 1),
            ) =~~= pieces(input@.take(i + 1), sep));
        } else {
            assert(input@.subrange(start as int, i + 1) =~= input@.subrange(
                start as int,
                i as int,
            ).push(c));
            assert(before.push(input@.subrange(start as int, i + 1)) =~~= pieces(
                input@.take(i + 1),
                sep,
            ));
        }
        i += 1;
    }
    spans.push((start, n));
    assert(input@.take(n as int) =~= input@);
    assert(span_texts(spans@, input@) =~= pieces(input@, sep));
    spans
}


/// The byte that the characters `a..b` of `input` stand for, if any.
fn lookup_token(input: &str, a: usize, b: usize, minimal: bool) -> (r: Option<u8>)
    requires
        a <= b <= input@.len(),
    ensures
        r == token_value(input@.subrange(a as int, b as int), minimal),
{
    let r = lookup_in_table(input, a, b, minimal);
    proof {
        lemma_table_value(input@.subrange(a as int, b as int), minimal);
    }
    r
}

fn lookup_in_table(input: &str, a: usize, b: usize, minimal: bool) -> (r: Option<u8>)
    requires
        a <= b <= input@.len(),
    ensures
        r == table_value(input@.subrange(a as int, b as int), minimal),
{
    proof {
        lemma_word_table();
    }
    let ghost t = input@.subrange(a as int, b as int);
    if minimal {
        if b - a != 2 {
            return None;
        }
        let c0 = input.get_char(a);
        let c1 = input.get_char(a + 1);
        let idx = short_word_lookup(c0, c1);
        if idx >= 256 {
            return None;
        }
        let at: usize = 4 * (idx as usize);
        if WORDS.get_char(at) == c0 && WORDS.get_char(at + 3) == c1 {
            assert(short_word(idx as int) =~= t);
            Some(idx as u8)
        } else {
            assert(short_word(idx as int) != t) by {
                if short_word(idx as int) == t {
                    assert(short_word(idx as int)[0] == t[0]);
                    assert(short_word(idx as int)[1] == t[1]);
                }
            }
            None
        }
    } else {
        if b - a != 4 {
            return None;
        }
        let c0 = input.get_char(a);
        let c1 = input.get_char(a + 1);
        let c2 = input.get_char(a + 2);
        let c3 = input.get_char(a + 3);
        let idx = short_word_lookup(c0, c3);
        if idx >= 256 {
            return None;
        }
        let at: usize = 4 * (idx as usize);
        if WORDS.get_char(at) == c0 && WORDS.get_char(at + 1) == c1 && WORDS.get_char(at + 2)
            == c2 && WORDS.get_char(at + 3) == c3 {
            assert(word(idx as int) =~= t);
            Some(idx as u8)
        } else {
            assert(word(idx as int) != t) by {
                if word(idx as int) == t {
                    assert(word(idx as int)[0] == t[0]);
                    assert(word(idx as int)[1] == t[1]);
                    assert(word(idx as int)[2] == t[2]);
                    assert(word(idx as int)[3] == t[3]);
                }
            }
            None
        }
    }
}

/// Decodes a Bytewords text back to its payload, checking its checksum.
pub fn byteword_string_to_bytes(input: &str, minimal: &bool) -> (r: Result<
    Vec<u8>,
    BytewordsError,
>)
    ensures
        (r matches Err(BytewordsError::UnknownWord(_))) <==> !all_known(
            tokens(input@, *minimal),
            *minimal,
        ),
        r matches Err(BytewordsError::UnknownWord(w)) ==> exists|k: int|
            0 <= k < tokens(input@, *minimal).len() && #[trigger] tokens(input@, *minimal)[k]
                == w@ && token_value(w@, *minimal) is None && all_known(
                tokens(input@, *minimal).take(k),
                *minimal,
            ),
        all_known(tokens(input@, *minimal), *minimal) ==> ((r matches Err(
            BytewordsError::TooShort,
        )) <==> token_bytes(tokens(input@, *minimal), *minimal).len() < 5),
        (r matches Err(BytewordsError::ChecksumMismatch)) <==> (all_known(
            tokens(input@, *minimal),
            *minimal,
        ) && token_bytes(tokens(input@, *minimal), *minimal).len() >= 5 && !checksum_holds(
            token_bytes(tokens(input@, *minimal), *minimal),
        )),
        (r matches Ok(v)) <==> decoded(input@, *minimal) is Some,
        r matches Ok(v) ==> decoded(input@, *minimal) == Some(v@),
{
    let spans = token_spans(input, *minimal);
    let ghost ts = tokens(input@, *minimal);
    let mut all: Vec<u8> = Vec::new();
    let mut k: usize = 0;
    while k < spans.len()
        invariant
            k <= spans@.len(),
            spans_within(spans@, input@.len() as int),
            span_texts(spans@, input@) == ts,
            ts == tokens(input@, *minimal),
            all_known(ts.take(k as int), *minimal),
            all@ == token_bytes(ts.take(k as int), *minimal),
        decreases spans.len() - k,
    {
        let (a, b) = spans[k];
        assert(spans@[k as int].0 <= spans@[k as int].1 <= input@.len());
        assert(ts[k as int] == input@.subrange(a as int, b as int));
        match lookup_token(input, a, b, *minimal) {
            Some(v) => {
                all.push(v);
                assert(ts.take(k + 1).drop_last() =~= ts.take(k as int));
                assert(all_known(ts.take(k + 1), *minimal));
                assert(all@ =~= token_bytes(ts.take(k + 1), *minimal));
            },
            None => {
                let w = String::from_str(input.substring_char(a, b));
                assert(!all_known(ts, *minimal));
                return Err(BytewordsError::UnknownWord(w));
            },
        }
        k += 1;
    }
    assert(ts.take(ts.len() as int) =~= ts);
    if all.len() < 5 {
        return Err(BytewordsError::TooShort);
    }
    let n = all.len() - 4;
    let payload = vstd::slice::slice_to_vec(vstd::slice::slice_subrange(all.as_slice(), 0, n));
    let sum = byteword_checksum(payload.as_slice());
    assert(payload@ =~= payload_of(all@));
    if all[n] == sum[0] && all[n + 1] == sum[1] && all[n + 2] == sum[2] && all[n + 3] == sum[3] {
        assert(all@.skip(n as int) =~= sum@);
        Ok(payload)
    } else {
        assert(all@.skip(n as int) != sum@) by {
            if all@.skip(n as int) == sum@ {
                assert(all@.skip(n as int)[0] == sum@[0]);
                assert(all@.skip(n as int)[1] == sum@[1]);
                assert(all@.skip(n as int)[2] == sum@[2]);
                assert(all@.skip(n as int)[3] == sum@[3]);
            }
        }
        Err(BytewordsError::ChecksumMismatch)
    }
}

proof fn lemma_split_nonempty(s: Seq<char>)
    ensures
        pieces(s, ' ').len() >= 1,
    decreases s.len(),
{
    if s.len() > 0 {
        lemma_split_nonempty(s.drop_last());
    }
}

proof fn lemma_split_no_space(s: Seq<char>, t: Seq<char>)
    requires
        forall|k: int| 0 <= k < t.len() ==> t[k] != ' ',
    ensures
        pieces(s + t, ' ') == pieces(s, ' ').update(
            pieces(s, ' ').len() - 1,
            pieces(s, ' ').last() + t,
        ),
    decreases t.len(),
{
    lemma_split_nonempty(s);
    let ps = pieces(s, ' ');
    if t.len() == 0 {
        assert(s + t =~= s);
        assert(ps.last() + t =~= ps.last());
        assert(ps.update(ps.len() - 1, ps.last() + t) =~~= ps);
    } else {
        let t0 = t.drop_last();
        lemma_split_no_space(s, t0);
        assert((s + t).drop_last() =~= s + t0);
        assert((s + t).last() == t.last());
        assert(ps.last() + t =~= (ps.last() + t0).push(t.last()));
        assert(pieces(s + t, ' ') =~~= ps.update(ps.len() - 1, ps.last() + t));
    }
}

proof fn lemma_word_has_no_space(b: u8)
    ensures
        forall|k: int| 0 <= k < word(b as int).len() ==> word(b as int)[k] != ' ',
{
    lemma_word_table();
    assert(word_entry_ok(b as int));
}

proof fn lemma_split_words(bytes: Seq<u8>)
    requires
        bytes.len() >= 1,
    ensures
        pieces(words_text(bytes, false), ' ') == bytes.map_values(|b: u8| token(b, false)),
    decreases bytes.len(),
{
    lemma_word_table();
    let b = bytes.last();
    let w = token(b, false);
    lemma_word_has_no_space(b);
    if bytes.len() == 1 {
        assert(words_text(bytes.drop_last(), false) =~= Seq::<char>::empty());
        assert(words_text(bytes, false) =~= Seq::<char>::empty() + w);
        lemma_split_no_space(Seq::<char>::empty(), w);
        assert(pieces(Seq::<char>::empty(), ' ') =~~= seq![seq![]]);
        assert(pieces(words_text(bytes, false), ' ') =~~= bytes.map_values(
            |b: u8| token(b, false),
        ));
    } else {
        let prev = words_text(bytes.drop_last(), false);
        lemma_split_words(bytes.drop_last());
        let ps = prev + seq![' '];
        assert(ps.drop_last() =~= prev);
        assert(pieces(ps, ' ') == pieces(prev, ' ').push(seq![]));
        lemma_split_no_space(ps, w);
        assert(words_text(bytes, false) == ps + w);
        assert(pieces(ps + w, ' ') =~~= bytes.map_values(|b: u8| token(b, false)));
    }
}

proof fn lemma_chunk_words(bytes: Seq<u8>)
    ensures
        words_text(bytes, true).len() == 2 * bytes.len(),
        chunks_of_two(words_text(bytes, true)) == bytes.map_values(|b: u8| token(b, true)),
    decreases bytes.len(),
{
    if bytes.len() > 0 {
        lemma_chunk_words(bytes.drop_last());
        let s = words_text(bytes, true);
        let prev = words_text(bytes.drop_last(), true);
        assert(s == prev + short_word(bytes.last() as int));
        assert(s.take(s.len() - 2) =~= prev);
        assert(s.skip(s.len() - 2) =~= short_word(bytes.last() as int));
        assert(chunks_of_two(s) =~~= bytes.map_values(|b: u8| token(b, true)));
    } else {
        assert(chunks_of_two(words_text(bytes, true)) =~~= bytes.map_values(
            |b: u8| token(b, true),
        ));
    }
}

/// Decoding the Bytewords text of a non-empty payload, in either form, gives
/// that payload back.
pub proof fn lemma_round_trip(data: Seq<u8>, minimal: bool)
    requires
        data.len() >= 1,
    ensures
        decoded(encoded(data, minimal), minimal) == Some(data),
{
    let bytes = data + checksum(data);
    let ts = tokens(encoded(data, minimal), minimal);
    if minimal {
        lemma_chunk_words(bytes);
    } else {
        lemma_split_words(bytes);
    }
    assert(ts == bytes.map_values(|b: u8| token(b, minimal)));
    assert forall|k: int| 0 <= k < ts.len() implies token_value(#[trigger] ts[k], minimal)
        == Some(bytes[k]) by {
        lemma_token_value(bytes[k], ts[k], minimal);
    }
    assert(all_known(ts, minimal));
    assert(token_bytes(ts, minimal) =~= bytes);
    assert(payload_of(bytes) =~= data);
    assert(bytes.skip(bytes.len() - 4) =~= checksum(data));
}

/// Pieces joined with single spaces between them.
pub open spec fn join_spaces(ps: Seq<Seq<char>>) -> Seq<char>
    decreases ps.len(),
{
    if ps.len() == 0 {
        seq![]
    } else if ps.len() == 1 {
        ps[0]
    } else {
        join_spaces(ps.drop_last()) + seq![' '] + ps.last()
    }
}

/// Pieces run together.
pub open spec fn concat_all(ps: Seq<Seq<char>>) -> Seq<char>
    decreases ps.len(),
{
    if ps.len() == 0 {
        seq![]
    } else {
        concat_all(ps.drop_last()) + ps.last()
    }
}

proof fn lemma_join_extend_last(ps: Seq<Seq<char>>, c: char)
    requires
        ps.len() >= 1,
    ensures
        join_spaces(ps.update(ps.len() - 1, ps.last().push(c))) == join_spaces(ps).push(c),
{
    let qs = ps.update(ps.len() - 1, ps.last().push(c));
    if ps.len() == 1 {
        assert(qs[0] == ps[0].push(c));
    } else {
        assert(qs.drop_last() =~= ps.drop_last());
        assert(join_spaces(qs) =~= join_spaces(ps).push(c));
    }
}

proof fn lemma_join_pieces(s: Seq<char>)
    ensures
        join_spaces(pieces(s, ' ')) == s,
    decreases s.len(),
{
    if s.len() > 0 {
        let prev = s.drop_last();
        lemma_join_pieces(prev);
        lemma_split_nonempty(prev);
        let ps = pieces(prev, ' ');
        if s.last() == ' ' {
            let qs = ps.push(seq![]);
            assert(qs.drop_last() =~= ps);
            assert(join_spaces(qs) =~= s);
        } else {
            lemma_join_extend_last(ps, s.last());
            assert(prev.push(s.last()) =~= s);
        }
    } else {
        assert(join_spaces(pieces(s, ' ')) =~= s);
    }
}

proof fn lemma_concat_chunks(s: Seq<char>)
    ensures
        concat_all(chunks_of_two(s)) == s,
    decreases s.len(),
{
    if s.len() > 0 {
        let k = if s.len() % 2 == 0 {
            s.len() - 2
        } else {
            s.len() - 1
        };
        lemma_concat_chunks(s.take(k));
        let cs = chunks_of_two(s.take(k)).push(s.skip(k));
        assert(chunks_of_two(s) == cs);
        assert(cs.drop_last() =~= chunks_of_two(s.take(k)));
        assert(concat_all(cs) == s.take(k) + s.skip(k));
        assert(s.take(k) + s.skip(k) =~= s);
    }
}

proof fn lemma_words_text_joined(bytes: Seq<u8>, minimal: bool)
    ensures
        words_text(bytes, minimal) == if minimal {
            concat_all(bytes.map_values(|b: u8| token(b, true)))
        } else {
            join_spaces(bytes.map_values(|b: u8| token(b, false)))
        },
    decreases bytes.len(),
{
    let ts = bytes.map_values(|b: u8| token(b, minimal));
    if bytes.len() > 0 {
        lemma_words_text_joined(bytes.drop_last(), minimal);
        assert(ts.drop_last() =~= bytes.drop_last().map_values(|b: u8| token(b, minimal)));
        if bytes.len() == 1 && !minimal {
            assert(words_text(bytes, minimal) =~= ts[0]);
        }
        if minimal {
            assert(ts.drop_last() =~= bytes.drop_last().map_values(|b: u8| token(b, true)));
        } else {
            assert(ts.drop_last() =~= bytes.drop_last().map_values(|b: u8| token(b, false)));
        }
    } else {
        assert(ts.len() == 0);
    }
}

/// A text that decodes is exactly the Bytewords text of what it decodes to:
/// any other text, such as one with a changed word, either fails to decode or
/// is the text of another payload with its own valid checksum.
pub proof fn lemma_decoded_is_encoding(s: Seq<char>, minimal: bool)
    requires
        decoded(s, minimal) is Some,
    ensures
        s == encoded(decoded(s, minimal)->0, minimal),
{
    let ts = tokens(s, minimal);
    let bytes = token_bytes(ts, minimal);
    let d = decoded(s, minimal)->0;
    assert(d == payload_of(bytes));
    assert(bytes =~= d + checksum(d)) by {
        assert(bytes =~= payload_of(bytes) + bytes.skip(bytes.len() - 4));
    }
    assert forall|k: int| 0 <= k < ts.len() implies #[trigger] ts[k] == token(bytes[k], minimal) by {
        assert(token_value(ts[k], minimal) is Some);
        lemma_token_value(bytes[k], ts[k], minimal);
    }
    assert(ts =~= bytes.map_values(|b: u8| token(b, minimal)));
    lemma_words_text_joined(bytes, minimal);
    if minimal {
        lemma_concat_chunks(s);
        assert(bytes.map_values(|b: u8| token(b, minimal)) =~= bytes.map_values(
            |b: u8| token(b, true),
        ));
    } else {
        lemma_join_pieces(s);
        assert(bytes.map_values(|b: u8| token(b, minimal)) =~= bytes.map_values(
            |b: u8| token(b, false),
        ));
    }
}

} // verus!
