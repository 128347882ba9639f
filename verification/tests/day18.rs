use advent_of_codspeed_2024::day18;

fn input(cells: &[(usize, usize)]) -> String {
    let mut s = String::new();
    for &(x, y) in cells {
        s.push_str(&format!("{},{}\n", x, y));
    }
    s
}

#[test]
fn day18_open_space() {
    assert_eq!(day18::part1(""), 140);
}

#[test]
fn day18_two_walls() {
    let mut cells = Vec::new();
    for y in 0..70 {
        cells.push((1, y));
    }
    for y in 1..71 {
        cells.push((3, y));
    }
    assert_eq!(day18::part1(&input(&cells)), 280);
}

#[test]
fn day18_cut_by_last_brick() {
    let mut cells = Vec::new();
    for y in 0..71 {
        if y != 35 {
            cells.push((5, y));
        }
    }
    cells.push((9, 9));
    cells.push((5, 35));
    cells.push((6, 6));
    let s = input(&cells);
    assert_eq!(day18::part2(&s), "5,35");
    assert_eq!(day18::run(&s), "5,35");
}

#[test]
fn day18_cut_near_corner() {
    let s = input(&[(3, 3), (70, 69), (12, 40), (69, 70)]);
    assert_eq!(day18::part2(&s), "69,70");
}

#[test]
fn day18_cut_by_wall_built_out_of_order() {
    let mut cells: Vec<(usize, usize)> = Vec::new();
    for i in 0..71 {
        let a = (40, (i * 37) % 71);
        let mut y = (i * 13) % 71;
        if y == 70 {
            y = 69;
        }
        let b = (10, y);
        for c in [a, b] {
            if !cells.contains(&c) {
                cells.push(c);
            }
        }
    }
    assert_eq!(day18::part2(&input(&cells)), "40,34");
}

#[test]
fn day18_heap_push_keeps_largest_first() {
    let mut heap: Vec<u16> = Vec::new();
    for v in [5u16, 17, 3, 42, 8, 42, 1] {
        heap.push(v);
        day18::bheap::push(&mut heap);
        assert_eq!(heap[0], *heap.iter().max().unwrap());
    }
    let mut sorted = heap.clone();
    sorted.sort();
    assert_eq!(sorted, vec![1, 3, 5, 8, 17, 42, 42]);
}

#[test]
fn day18_heap_pop_gives_descending_order() {
    let mut heap: Vec<u16> = Vec::new();
    for v in [9u16, 2, 30, 30, 7, 11, 0, 25] {
        heap.push(v);
        day18::bheap::push(&mut heap);
    }
    let mut out = Vec::new();
    while !heap.is_empty() {
        out.push(heap[0]);
        day18::bheap::pop(&mut heap);
        heap.pop();
    }
    assert_eq!(out, vec![30, 30, 25, 11, 9, 7, 2, 0]);
}

#[test]
fn day18_heap_pop_arrangement() {
    let mut heap: Vec<u16> = vec![9, 5, 4, 3];
    day18::bheap::pop(&mut heap);
    assert_eq!(heap, vec![5, 3, 4, 3]);
}

#[test]
fn day18_heap_push_arrangement() {
    let mut heap: Vec<u16> = vec![5, 3, 4, 9];
    day18::bheap::push(&mut heap);
    assert_eq!(heap, vec![9, 5, 4, 3]);
}

#[test]
fn day18_heap_pop_single_and_empty() {
    let mut one: Vec<u16> = vec![7];
    day18::bheap::pop(&mut one);
    assert_eq!(one, vec![7]);
    let mut none: Vec<u16> = Vec::new();
    day18::bheap::pop(&mut none);
    assert!(none.is_empty());
}
