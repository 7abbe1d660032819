use isocolour::classify::chars_of;
use isocolour::colour;
use isocolour::colours::discord_table;
use isocolour::render::{render_line, reset, split_words};
use isocolour::{Colour, ColourKey, ColouredObject, DiscordColour, RGB};

fn strip_escapes(s: &str) -> String {
    let mut out = String::new();
    let mut in_escape = false;
    for c in s.chars() {
        if in_escape {
            if c == 'm' {
                in_escape = false;
            }
        } else if c == '\u{1B}' {
            in_escape = true;
        } else {
            out.push(c);
        }
    }
    out
}

#[test]
fn reset_marker() {
    assert_eq!(reset(), "\u{1B}[0m");
}

#[test]
fn rgb_escape_sequence() {
    let c = RGB { r: 1, g: 22, b: 133 };
    assert_eq!(c.ansify(), "\u{1B}[38;2;1;22;133m");
    let c = RGB { r: 255, g: 0, b: 70 };
    assert_eq!(c.ansify(), "\u{1B}[38;2;255;0;70m");
}

#[test]
fn discord_escape_sequence() {
    assert_eq!(DiscordColour { value: 31 }.ansify(), "\u{1B}[31m");
    assert_eq!(DiscordColour { value: 0 }.ansify(), "\u{1B}[0m");
}

#[test]
fn chars_of_reads_every_character() {
    let cs = chars_of(&"ab c".to_string());
    assert_eq!(cs, vec!['a', 'b', ' ', 'c']);
    assert_eq!(chars_of(&String::new()), Vec::<char>::new());
}

#[test]
fn split_on_single_spaces() {
    let split = |s: &str| split_words(&s.to_string());
    assert_eq!(split("egg add"), vec!["egg", "add"]);
    assert_eq!(split(""), vec![""]);
    assert_eq!(split("a  b"), vec!["a", "", "b"]);
    assert_eq!(split(" x "), vec!["", "x", ""]);
    assert_eq!(split("one"), vec!["one"]);
}

#[test]
fn coloured_word_is_prefixed() {
    let table = discord_table(1000);
    let o = ColouredObject { value: "egg".to_string(), colour: Some(ColourKey { idx: 0 }) };
    assert_eq!(o.ansify(&table), "\u{1B}[31megg");
    let o = ColouredObject { value: "cde".to_string(), colour: None };
    assert_eq!(o.ansify(&table), "cde");
}

#[test]
fn reified_colours_cycle_through_the_table() {
    let table = discord_table(3);
    let k = ColourKey { idx: 5 };
    assert_eq!(k.reify(&table).value, table[2].value);
    let k = ColourKey { idx: 1 };
    assert_eq!(k.reify(&table).value, table[1].value);
}

#[test]
fn rendered_line_of_a_coloured_pair() {
    let table = discord_table(1000);
    let out = colour(split_words(&"egg add".to_string()));
    let line = render_line(&out, &table);
    assert_eq!(line, "\u{1B}[31megg\u{1B}[0m \u{1B}[31madd\u{1B}[0m ");
}

#[test]
fn rendered_line_of_uncoloured_words() {
    let table = discord_table(1000);
    let out = colour(split_words(&"abc abc".to_string()));
    let line = render_line(&out, &table);
    assert_eq!(line, "abc\u{1B}[0m abc\u{1B}[0m ");
}

#[test]
fn empty_input_renders_one_separator() {
    let table = discord_table(1000);
    let out = colour(split_words(&String::new()));
    let line = render_line(&out, &table);
    assert_eq!(strip_escapes(&line), " ");
}

#[test]
fn round_trip_restores_the_words() {
    let input = "abb cde fgg aa bb abc abc";
    let table = discord_table(1000);
    let out = colour(split_words(&input.to_string()));
    let line = render_line(&out, &table);
    let plain = strip_escapes(&line);
    let mut restored: Vec<&str> = plain.split(' ').collect();
    assert_eq!(restored.pop(), Some(""));
    let original: Vec<&str> = input.split(' ').collect();
    assert_eq!(restored, original);
}

#[test]
fn words_holding_the_letter_m_survive_stripping() {
    // 'm' only closes a marker inside an escape run; in plain text it
    // stays.
    let table = discord_table(1000);
    let out = colour(split_words(&"mom mum dad".to_string()));
    let line = render_line(&out, &table);
    assert_eq!(strip_escapes(&line), "mom mum dad ");
}

#[test]
fn round_trip_with_rgb_table() {
    let input = "paper title all tall";
    let table = vec![
        RGB { r: 200, g: 30, b: 30 },
        RGB { r: 30, g: 200, b: 30 },
        RGB { r: 30, g: 30, b: 200 },
    ];
    let out = colour(split_words(&input.to_string()));
    let line = render_line(&out, &table);
    let plain = strip_escapes(&line);
    assert_eq!(plain, "paper title all tall ");
}
