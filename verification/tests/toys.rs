use protohackers::toys::{busiest, WrongItem};

fn pick(line: &str) -> Result<&str, WrongItem> {
    busiest(line.as_bytes()).map(|(start, end)| &line[start..end])
}

#[test]
fn the_toy_with_the_most_copies() {
    assert_eq!(
        pick("10x toy car,15x dog on a string,4x inflatable motorcycle"),
        Ok("15x dog on a string")
    );
    assert_eq!(pick("4x dog,5x car"), Ok("5x car"));
    assert_eq!(pick("3x rat,2x cat"), Ok("3x rat"));
    assert_eq!(pick("1x only"), Ok("1x only"));
    assert_eq!(pick("0x"), Ok("0x"));
    assert_eq!(pick("4294967295x max,1x min"), Ok("4294967295x max"));
}

#[test]
fn of_equal_toys_the_last() {
    assert_eq!(pick("2x a,2x b,1x c"), Ok("2x b"));
    assert_eq!(pick("7x a,7x b,7x c"), Ok("7x c"));
    assert_eq!(pick("0x a,0x b"), Ok("0x b"));
}

#[test]
fn numbers_as_they_may_be_written() {
    assert_eq!(pick("+5x plus,4x plain"), Ok("+5x plus"));
    assert_eq!(pick("007x bond,6x other"), Ok("007x bond"));
    assert_eq!(pick("1x x-ray,2xx"), Ok("2xx"));
    assert_eq!(pick("3x \u{e9}l\u{e9}phant,2x g\u{e2}teau"), Ok("3x \u{e9}l\u{e9}phant"));
}

#[test]
fn wrong_items() {
    for line in [
        "",
        "toy",
        "x toy",
        "+x toy",
        "-1x toy",
        " 1x toy",
        "1 x toy",
        "1.5x toy",
        "4294967296x toy",
        "99999999999999999999x toy",
        "1x toy,",
        ",1x toy",
        "1x toy,,2x car",
        "1x toy,car",
        "1x toy, 2x car",
        "++1x toy",
        "1+x toy",
    ] {
        assert_eq!(pick(line), Err(WrongItem), "{:?}", line);
    }
    assert_eq!(WrongItem.message(), "Received some wrong item");
}
