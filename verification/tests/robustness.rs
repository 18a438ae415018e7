use texparser::bib::parse_bib;
use texparser::braces::match_parens;
use texparser::fields::values;
use texparser::output::escape_csv;
use texparser::patterns::Registry;
use texparser::scanner::{is_comment, scan};
use texparser::text::{
    find_char, same_text, split_text, trim, trim_by, trim_end_by, trim_start, trim_start_by,
    CharSet,
};
use texparser::Config;

const PIECES: [&str; 24] = [
    "{", "}", "{", "}", "=", ",", "@", "\n", "\\", "%", " ", "\t", "a", "é", "\u{a0}", "and",
    "\\label{", "\\section*{", "\\include{", "\\newglossaryentry{", "\\longnewglossaryentry{",
    "[x]", "\\bibliography{", "long",
];

struct Dice(u64);

impl Dice {
    fn roll(&mut self, sides: usize) -> usize {
        self.0 = self.0.wrapping_mul(6364136223846793005).wrapping_add(1442695040888963407);
        ((self.0 >> 33) % sides as u64) as usize
    }

    fn text(&mut self) -> String {
        let mut out = String::new();
        for _ in 0..self.roll(24) {
            out.push_str(PIECES[self.roll(PIECES.len())]);
        }
        out
    }
}

fn braces_by_hand(input: &str) -> (String, String) {
    let chars: Vec<char> = input.chars().collect();
    let open = match chars.iter().position(|&c| c == '{') {
        Some(open) => open,
        None => return (String::new(), String::new()),
    };
    let mut depth = 0;
    for (i, &c) in chars.iter().enumerate().skip(open) {
        if c == '{' {
            depth += 1;
        } else if c == '}' {
            depth -= 1;
            if depth == 0 {
                return (chars[open + 1..i].iter().collect(), chars[i + 1..].iter().collect());
            }
        }
    }
    (chars[open + 1..].iter().collect(), String::new())
}

#[test]
fn brace_groups_agree_with_a_count_by_hand() {
    let mut dice = Dice(1);
    for _ in 0..3000 {
        let text = dice.text();
        let (content, rest) = match_parens(&text);
        assert_eq!((content.to_string(), rest.to_string()), braces_by_hand(&text), "{:?}", text);
    }
}

#[test]
fn trimming_agrees_with_std() {
    let mut dice = Dice(2);
    let key: &[char] = &[' ', '{', '}', ',', '\t', '\n', '\r', '%'];
    let right: &[char] = &['{', ' ', '*'];
    let left: &[char] = &[' ', '\\'];
    for _ in 0..3000 {
        let text = dice.text();
        assert_eq!(trim(&text), text.trim(), "{:?}", text);
        assert_eq!(trim_start(&text), text.trim_start(), "{:?}", text);
        assert_eq!(trim_by(&text, &CharSet::Listed(" {},\t\n\r%")), text.trim_matches(key));
        assert_eq!(trim_end_by(&text, &CharSet::Listed("{ *")), text.trim_end_matches(right));
        assert_eq!(trim_start_by(&text, &CharSet::Listed(" \\")), text.trim_start_matches(left));
    }
}

#[test]
fn searching_agrees_with_std() {
    let mut dice = Dice(3);
    for _ in 0..3000 {
        let text = dice.text();
        let other = dice.text();
        assert_eq!(find_char(&text, '='), text.chars().position(|c| c == '='), "{:?}", text);
        let parts: Vec<&str> = text.split("and").collect();
        assert_eq!(split_text(&text, "and"), parts, "{:?}", text);
        assert_eq!(same_text(&text, &other), text == other);
        assert!(same_text(&text, &text.clone()));
        let quoted = escape_csv(&text, ",");
        assert_eq!(quoted != text, text.contains(','), "{:?}", text);
    }
}

fn top_comma_by_hand(text: &str) -> Option<usize> {
    let mut depth = 0;
    for (at, c) in text.char_indices() {
        match c {
            '{' => depth += 1,
            '}' if depth > 0 => depth -= 1,
            ',' if depth == 0 => return Some(at),
            _ => {}
        }
    }
    None
}

fn values_by_hand(input: &str) -> Vec<(String, String)> {
    let key: &[char] = &[' ', '{', '}', ',', '\t', '\n', '\r', '%'];
    let val: &[char] = &[' ', ',', '\t', '\n', '\r', '%'];
    let mut rest = input.trim().to_string();
    let mut out = vec![];
    while let Some(eq) = rest.find('=') {
        let name = rest[..eq].trim().trim_matches(key).to_string();
        let after = rest[eq + 1..].trim().to_string();
        if after.starts_with('{') {
            let (content, tail) = braces_by_hand(&after);
            out.push((name, content.trim_matches(val).to_string()));
            rest = tail;
        } else if let Some(comma) = top_comma_by_hand(&after) {
            out.push((name, after[..comma].trim_matches(val).to_string()));
            rest = after[comma + 1..].to_string();
        } else {
            out.push((name, after.trim_matches(val).to_string()));
            break;
        }
    }
    out
}

#[test]
fn key_value_lists_agree_with_a_reading_by_hand() {
    let mut dice = Dice(4);
    for _ in 0..3000 {
        let text = dice.text();
        let found: Vec<(String, String)> =
            values(&text).into_iter().map(|(k, v)| (k.to_string(), v.to_string())).collect();
        assert_eq!(found, values_by_hand(&text), "{:?}", text);
    }
}

#[test]
fn comments_are_marks_without_a_backslash_before() {
    let mut dice = Dice(5);
    for _ in 0..3000 {
        let text = dice.text();
        let line: Vec<char> = text.rsplit('\n').next().unwrap_or("").chars().collect();
        let marked = (0..line.len()).any(|i| line[i] == '%' && (i == 0 || line[i - 1] != '\\'));
        assert_eq!(is_comment(&text), marked, "{:?}", text);
    }
}

#[test]
fn scans_and_bibliographies_take_any_text() {
    let mut dice = Dice(6);
    for round in 0..2000 {
        let bits = round % 32;
        let cfg = Config {
            includes: bits & 1 != 0,
            bib: bits & 2 != 0,
            glossaries: bits & 4 != 0,
            sections: bits & 8 != 0,
            labels: bits & 16 != 0,
            threads: 1,
        };
        let reg = Registry::new(&cfg).expect("the patterns compile");
        let text = dice.text();
        let found = scan(&reg, &cfg, &text);
        if bits == 0 {
            assert_eq!(found.len(), 0);
        }
        assert!(found.len() <= text.matches('\\').count());
        let cited = parse_bib(&text);
        assert!(cited.len() <= text.matches('@').count());
    }
}
