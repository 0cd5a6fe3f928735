use mason_rs::number::Number;
use mason_rs::value::{Object, Value};
use mason_rs::{from_slice, from_str, to_bytes, to_string};

/// A small generator of numbers that are the same on every run.
struct Dice(u64);

impl Dice {
    fn roll(&mut self, sides: u64) -> u64 {
        self.0 = self.0.wrapping_mul(6364136223846793005).wrapping_add(1442695040888963407);
        (self.0 >> 33) % sides
    }
}

fn some_text(dice: &mut Dice) -> String {
    let alphabet: &[&str] = &[
        "a", "B", "_", "-", "7", " ", "\n", "\t", "{", "}", "[", "]", ":", ",", "/", "*", "#", "'",
        "\u{e9}", "\u{3061}", "\u{1F643}", "\\", "\"",
    ];
    let sides = alphabet.len() as u64;
    let mut text = String::new();
    for _ in 0..dice.roll(6) {
        text.push_str(alphabet[dice.roll(sides) as usize]);
    }
    // what ends with a backslash does not come back
    while text.ends_with('\\') {
        text.pop();
    }
    text
}

fn some_number(dice: &mut Dice) -> Number {
    let texts = ["0", "1", "42", "3.14", "0.5", ".5", "1e5", "1E-5", "12.5e+3", "007"];
    Number::new(dice.roll(2) == 0, texts[dice.roll(texts.len() as u64) as usize].as_bytes().to_vec())
        .unwrap()
}

fn some_value(dice: &mut Dice, depth: u32, braces: bool) -> Value {
    let kinds = if depth == 0 { 5 } else if braces { 7 } else { 6 };
    match dice.roll(kinds) {
        0 => Value::Null,
        1 => Value::Bool(dice.roll(2) == 0),
        2 => Value::Number(some_number(dice)),
        3 => Value::String(some_text(dice)),
        4 => {
            let mut bytes = Vec::new();
            for _ in 0..dice.roll(6) {
                let byte = dice.roll(256) as u8;
                if byte != b'"' && byte != b'\\' {
                    bytes.push(byte);
                }
            }
            Value::ByteString(bytes)
        }
        5 => {
            let mut items = Vec::new();
            for _ in 0..dice.roll(4) {
                items.push(some_value(dice, depth - 1, braces));
            }
            Value::Array(items)
        }
        _ => Value::Object(some_object(dice, depth - 1, 0)),
    }
}

fn some_object(dice: &mut Dice, depth: u32, least: u64) -> Object {
    let mut object = Object::new();
    for _ in 0..least + dice.roll(4) {
        object.insert(some_text(dice), some_value(dice, depth, true));
    }
    object
}

#[test]
fn what_is_written_is_read_back() {
    let mut dice = Dice(2024);
    for _ in 0..2000 {
        let value = if dice.roll(2) == 0 {
            // an object at the root has an entry at least, and no braces
            Value::Object(some_object(&mut dice, 3, 1))
        } else {
            some_value(&mut dice, 3, false)
        };
        let document = to_bytes(&value);
        let read = from_slice(&document);
        assert_eq!(read.as_ref().ok(), Some(&value), "{}", to_string(&value));
        // writing what was read gives the document again
        assert_eq!(to_bytes(&read.unwrap()), document);
        assert_eq!(to_string(&value).into_bytes(), document);
    }
}

#[test]
fn the_first_key_at_the_root_may_hold_quotes() {
    let mut object = Object::new();
    object.insert("a \"quoted\" \\ key".to_owned(), Value::Null);
    object.insert("plain key".to_owned(), Value::Bool(true));
    let value = Value::Object(object);
    assert_eq!(from_str(&to_string(&value)).unwrap(), value);
}

#[test]
fn any_key_may_hold_quotes() {
    let mut inner = Object::new();
    inner.insert("in \"braces\" \\ too".to_owned(), Value::Null);
    let mut object = Object::new();
    object.insert("first".to_owned(), Value::Object(inner));
    object.insert("a \"later\" \\ key".to_owned(), Value::Bool(true));
    let value = Value::Object(object);
    assert_eq!(from_str(&to_string(&value)).unwrap(), value);
}

fn some_gap(dice: &mut Dice) -> &'static str {
    let gaps = ["", " ", "\t", "\n", "\r\n", "  \n  ", "/* c */", " /* a * b / c **/ ", "// c\n", " // //\n\t"];
    gaps[dice.roll(gaps.len() as u64) as usize]
}

fn some_separator(dice: &mut Dice) -> String {
    let marks = [",", "\n", "\r\n", "// note\n"];
    let blanks = ["", " ", "\t ", "/* c */", " /* c */ "];
    format!(
        "{}{}{}",
        blanks[dice.roll(blanks.len() as u64) as usize],
        marks[dice.roll(marks.len() as u64) as usize],
        some_gap(dice)
    )
}

fn some_tail(dice: &mut Dice) -> String {
    match dice.roll(3) {
        0 => String::new(),
        1 => some_separator(dice),
        _ => [" ", "\n", "\t\r\n ", "\r"][dice.roll(4) as usize].to_owned(),
    }
}

fn laid_out(value: &Value, dice: &mut Dice, root: bool) -> String {
    match value {
        Value::Array(items) => {
            let mut text = format!("[{}", some_gap(dice));
            for (i, item) in items.iter().enumerate() {
                text += &laid_out(item, dice, false);
                text += &if i + 1 < items.len() { some_separator(dice) } else { some_tail(dice) };
            }
            text + "]"
        }
        Value::Object(object) => {
            let mut text = if root { String::new() } else { format!("{{{}", some_gap(dice)) };
            for i in 0..object.len() {
                text += &format!(
                    "{}{}:{}{}",
                    object.key_at(i),
                    some_gap(dice),
                    some_gap(dice),
                    laid_out(object.value_at(i), dice, false)
                );
                text += &if i + 1 < object.len() { some_separator(dice) } else { some_tail(dice) };
            }
            if root {
                text
            } else {
                text + "}"
            }
        }
        other => to_string(other),
    }
}

#[test]
fn gaps_and_separators_do_not_change_what_is_read() {
    let plain = "{a: [1, \"two\", [], {b: null, c: [true]}], d: {}, e: b\"f\", g: -0.5}";
    let value = from_str(plain).unwrap();
    let mut dice = Dice(7);
    for _ in 0..3000 {
        let braces = format!("{}{}{}", some_gap(&mut dice), laid_out(&value, &mut dice, false), some_gap(&mut dice));
        assert_eq!(from_str(&braces).ok().as_ref(), Some(&value), "{braces:?}");
        let root = format!("{}{}", some_gap(&mut dice), laid_out(&value, &mut dice, true));
        assert_eq!(from_str(&root).ok().as_ref(), Some(&value), "{root:?}");
    }
}

#[test]
fn the_same_tokens_read_alike() {
    let documents = [
        "a: 1, b: [1, 2], a: \"x\"",
        "{a:1\nb:[1\n2]\na:\"x\"}",
        " /* c */ {\n a /* k */ : 1 // one\n b : [ 1 , 2 , ] , a : \"x\" , } // end\n",
        "a:1,\n\nb:[1,\n2],\na:\"x\"\n",
        "\ta\t:\t1\r\nb:/**/[/**/1/**/,/**/2/**/]/**/\r\na:\"x\"",
        "a: 1\nb: [1, 2]\na: \"x\" // the input ends in a comment",
        "{a: 1\nb: [1, 2]\na: \"x\"} \r // and here",
    ];
    let mut object = Object::new();
    object.insert("a".to_owned(), Value::String("x".to_owned()));
    object.insert("b".to_owned(), from_str("[1, 2]").unwrap());
    let expected = Value::Object(object);
    for document in documents {
        let read = from_str(document).unwrap();
        assert_eq!(read, expected, "{}", document);
        // the later value stands in the place of the earlier one
        assert_eq!(to_string(&read), "a: \"x\"\nb: [1, 2]");
    }
}
