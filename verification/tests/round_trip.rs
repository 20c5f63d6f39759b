use elikoga_ical_rs::{fold_and_join, ContentLine, ICalObject, Param, Unfold};

/// A small generator of numbers, the same on every run.
struct Numbers(u64);

impl Numbers {
    fn next(&mut self) -> u64 {
        self.0 = self.0.wrapping_mul(6364136223846793005).wrapping_add(1442695040888963407);
        self.0 >> 33
    }

    fn below(&mut self, bound: usize) -> usize {
        (self.next() % bound as u64) as usize
    }

    fn pick(&mut self, alphabet: &[char], length: usize) -> String {
        (0..length).map(|_| alphabet[self.below(alphabet.len())]).collect()
    }
}

fn name_alphabet() -> Vec<char> {
    "ABCDEFGHIJKLMNOPQRSTUVWXYZabcdefghijklmnopqrstuvwxyz0123456789-".chars().collect()
}

fn value_alphabet() -> Vec<char> {
    " !#$%&'()*+,-./0123456789:;<=>?@ABCXYZ[\\]^_`abcxyz{|}~\"äß€🎉\t".chars().collect()
}

fn param_value_alphabet() -> Vec<char> {
    " !#$%&'()*+,-./0123456789:;<=>?@ABCXYZ[\\]^_`abcxyz{|}~äß€🎉".chars().collect()
}

fn property(numbers: &mut Numbers) -> ContentLine {
    let name = loop {
        let length = numbers.below(12);
        let name = numbers.pick(&name_alphabet(), length);
        if !name.eq_ignore_ascii_case("BEGIN") && !name.eq_ignore_ascii_case("END") {
            break name;
        }
    };
    let params = (0..numbers.below(4))
        .map(|_| {
            let length = 1 + numbers.below(8);
            let name = numbers.pick(&name_alphabet(), length);
            let values = (0..1 + numbers.below(3))
                .map(|_| {
                    let length = numbers.below(20);
                    numbers.pick(&param_value_alphabet(), length)
                })
                .collect();
            Param::new(name, values)
        })
        .collect();
    let length = numbers.below(200);
    let value = numbers.pick(&value_alphabet(), length);
    ContentLine::new(name, params, value)
}

fn object(numbers: &mut Numbers, depth: usize) -> ICalObject {
    let length = numbers.below(10);
    let object_type = numbers.pick(&name_alphabet(), length);
    let properties = (0..numbers.below(6)).map(|_| property(numbers)).collect();
    let sub_objects = if depth == 0 {
        vec![]
    } else {
        (0..numbers.below(4)).map(|_| object(numbers, depth - 1)).collect()
    };
    ICalObject { object_type, properties, sub_objects }
}

#[test]
fn generated_lines_are_read_back() {
    let mut numbers = Numbers(1);
    for _ in 0..500 {
        let line = property(&mut numbers);
        assert_eq!(ContentLine::from_str(&line.to_string()), Ok(line));
    }
}

#[test]
fn generated_objects_are_read_back() {
    let mut numbers = Numbers(2);
    for _ in 0..50 {
        let tree = object(&mut numbers, 3);
        let text = tree.to_string();
        for physical in text.split("\r\n") {
            assert!(physical.len() <= 75 || physical.starts_with("BEGIN:") || physical.starts_with("END:"));
        }
        assert_eq!(ICalObject::from_str(&text), Ok(tree));
    }
}

#[test]
fn generated_lines_are_unfolded_as_they_were() {
    let mut numbers = Numbers(3);
    for _ in 0..50 {
        let lines: Vec<String> =
            (0..1 + numbers.below(8)).map(|_| property(&mut numbers).to_string()).collect();
        let mut unfold = Unfold::new(fold_and_join(&lines).into_bytes());
        let mut unfolded = Vec::new();
        while let Some(line) = unfold.next() {
            unfolded.push(line.unwrap());
        }
        assert_eq!(unfolded, lines);
    }
}
