use advent_of_codspeed_2024::day23;

const EXAMPLE: &str = "kh-tc\nqp-kh\nde-cg\nka-co\nyn-aq\nqp-ub\ncg-tb\nvc-aq\ntb-ka\nwh-tc\nyn-cg\nkh-ub\nta-co\nde-co\ntc-td\ntb-wq\nwh-td\nta-ka\ntd-qp\naq-cg\nwq-ub\nub-vc\nde-ta\nwq-aq\nwq-vc\nwh-yn\nka-de\nkh-ta\nco-tc\nwh-qp\ntb-vc\ntd-yn\n";

#[test]
fn day23_example() {
    assert_eq!(day23::part1(EXAMPLE), 7);
    assert_eq!(day23::run(EXAMPLE), 7);
}

#[test]
fn day23_triangle_without_t() {
    assert_eq!(day23::part1("ab-cd\ncd-ef\nef-ab\n"), 0);
}

#[test]
fn day23_two_t_nodes_counted_once() {
    assert_eq!(day23::part1("ta-tb\ntb-xy\nxy-ta\n"), 1);
}

#[test]
fn day23_repeated_link() {
    assert_eq!(day23::part1("ta-bc\nbc-ta\nbc-de\nde-ta\n"), 1);
}

/// A party of thirteen computers `ca`..`cm`, each also linked to one
/// computer `za`..`zm` outside it, plus the given extra lines.
fn party_input(extra: &str) -> String {
    let members: Vec<String> = (b'a'..=b'm').map(|c| format!("c{}", c as char)).collect();
    let mut s = String::from(extra);
    for i in 0..13 {
        for j in i + 1..13 {
            s.push_str(&format!("{}-{}\n", members[i], members[j]));
        }
        s.push_str(&format!("{}-z{}\n", members[i], (b'a' + i as u8) as char));
    }
    s
}

#[test]
fn day23_part2_party_of_thirteen() {
    let input = party_input("");
    assert_eq!(day23::part2(&input), "ca,cb,cc,cd,ce,cf,cg,ch,ci,cj,ck,cl,cm");
}

#[test]
fn day23_part2_first_link_outside_the_party() {
    // `ca`'s first link is `aa`, which shares no link with it; its second
    // link `cb` finds the party
    let input = party_input("aa-ca\naa-zz\n");
    assert_eq!(day23::part2(&input), "ca,cb,cc,cd,ce,cf,cg,ch,ci,cj,ck,cl,cm");
}
