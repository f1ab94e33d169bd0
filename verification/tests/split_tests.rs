use unit_splitter_core::group::Group;
use unit_splitter_core::inventory;
use unit_splitter_core::range::Range;
use unit_splitter_core::request::Request;
use unit_splitter_core::requests;
use unit_splitter_core::split::{split, Split, SplitError};

#[test]
fn simple() {
    let inventory = vec![
        Group::new("A".into(), vec![Range::new(1, 100)]),
        Group::new("B".into(), vec![Range::new(101, 200)]),
        Group::new("C".into(), vec![Range::new(201, 300)]),
    ];
    let requests = vec![
        Request::new("X".into(), vec![32, 32, 32]),
        Request::new("Y".into(), vec![32, 32, 32]),
        Request::new("Z".into(), vec![32, 32, 32]),
    ];

    let result = split(&inventory, &requests);

    let mut expected_filled = Vec::new();
    expected_filled.push((
        "X".to_string(),
        vec![
            Group::new("A".into(), vec![Range::new(1, 32)]),
            Group::new("B".into(), vec![Range::new(101, 132)]),
            Group::new("C".into(), vec![Range::new(201, 232)]),
        ],
    ));
    expected_filled.push((
        "Y".to_string(),
        vec![
            Group::new("A".into(), vec![Range::new(33, 64)]),
            Group::new("B".into(), vec![Range::new(133, 164)]),
            Group::new("C".into(), vec![Range::new(233, 264)]),
        ],
    ));
    expected_filled.push((
        "Z".to_string(),
        vec![
            Group::new("A".into(), vec![Range::new(65, 96)]),
            Group::new("B".into(), vec![Range::new(165, 196)]),
            Group::new("C".into(), vec![Range::new(265, 296)]),
        ],
    ));

    assert_eq!(
        result,
        Ok(Split {
            filled_requests: expected_filled,
            leftover_ranges: vec![
                Group::new("A".into(), vec![Range::new(97, 100)]),
                Group::new("B".into(), vec![Range::new(197, 200)]),
                Group::new("C".into(), vec![Range::new(297, 300)]),
            ],
        })
    );
}

#[test]
fn brokeit() {
    // A=1-10,15,18
    // H: 5
    // J: 6
    let inventory = vec![Group::new(
        "A".into(),
        vec![Range::new(1, 10), Range::num(15), Range::num(18)],
    )];
    let requests = vec![
        Request::new("H".into(), vec![5]),
        Request::new("J".into(), vec![6]),
    ];

    let result = split(&inventory, &requests);

    let mut expected_filled = Vec::new();
    expected_filled.push((
        "H".to_string(),
        vec![Group::new("A".into(), vec![Range::new(1, 5)])],
    ));
    expected_filled.push((
        "J".to_string(),
        vec![Group::new("A".into(), vec![Range::new(6, 10), Range::num(15)])],
    ));

    assert_eq!(
        result,
        Ok(Split {
            filled_requests: expected_filled,
            leftover_ranges: vec![Group::new("A".into(), vec![Range::num(18)])],
        })
    );
}

#[test]
fn not_enough() {
    let inventory = vec![Group::new("A".into(), vec![Range::new(1, 10)])];
    let requests = vec![Request::new("X".into(), vec![32])];

    let result = split(&inventory, &requests);

    assert_eq!(
        result,
        Err(SplitError::NotEnough {
            group_name: "A".into(),
            amount_needed: 22,
        })
    );
}

#[test]
fn greedy_request() {
    let inventory = vec![Group::new("A".into(), vec![Range::new(1, 10)])];
    let requests = vec![Request::new("X".into(), vec![10, 10])];

    let result = split(&inventory, &requests);

    assert_eq!(
        result,
        Err(SplitError::TooManyGroupsRequested {
            request_name: "X".into(),
        })
    );
}

#[test]
fn too_many_groups_requested_from_text() {
    // one group in the inventory, three amounts in the request
    let inventory = inventory::parse("A=1-100").expect("inventory parses");
    let requests = requests::parse("X: 32,32,32").expect("requests parse");
    let result = split(&inventory, &requests);
    assert_eq!(
        result,
        Err(SplitError::TooManyGroupsRequested {
            request_name: "X".into(),
        })
    );
}

#[test]
fn three_groups_filled_from_text() {
    let inventory = inventory::parse("A=1-100, B=101-200, C=201-300").expect("inventory parses");
    let requests = requests::parse("X: 32,32,32").expect("requests parse");
    let result = split(&inventory, &requests).expect("split succeeds");
    assert_eq!(
        result.filled_requests,
        vec![(
            "X".to_string(),
            vec![
                Group::new("A".into(), vec![Range::new(1, 32)]),
                Group::new("B".into(), vec![Range::new(101, 132)]),
                Group::new("C".into(), vec![Range::new(201, 232)]),
            ],
        )]
    );
    assert_eq!(
        result.leftover_ranges,
        vec![
            Group::new("A".into(), vec![Range::new(33, 100)]),
            Group::new("B".into(), vec![Range::new(133, 200)]),
            Group::new("C".into(), vec![Range::new(233, 300)]),
        ]
    );
}

#[test]
fn two_requests_from_text() {
    let inventory = inventory::parse("A=1-10,15,18").expect("inventory parses");
    let requests = requests::parse("H: 5, J: 6").expect("requests parse");
    let result = split(&inventory, &requests).expect("split succeeds");
    assert_eq!(
        result.filled_requests,
        vec![
            (
                "H".to_string(),
                vec![Group::new("A".into(), vec![Range::new(1, 5)])],
            ),
            (
                "J".to_string(),
                vec![Group::new("A".into(), vec![Range::new(6, 10), Range::num(15)])],
            ),
        ]
    );
    assert_eq!(
        result.leftover_ranges,
        vec![Group::new("A".into(), vec![Range::num(18)])]
    );
}

#[test]
fn not_enough_from_text() {
    let inventory = inventory::parse("A=1-10").expect("inventory parses");
    let requests = requests::parse("X: 32").expect("requests parse");
    let result = split(&inventory, &requests);
    assert_eq!(
        result,
        Err(SplitError::NotEnough {
            group_name: "A".into(),
            amount_needed: 22,
        })
    );
}

#[test]
fn split_conserves_units() {
    // no unit is created or destroyed by a successful split
    let inventory = inventory::parse("A=1-100, B=101-200").expect("inventory parses");
    let requests = requests::parse("X: 17,3, Y: 40,80").expect("requests parse");
    let original: u32 = inventory.iter().map(|g| g.count()).sum();
    let result = split(&inventory, &requests).expect("split succeeds");
    let filled: u32 = result
        .filled_requests
        .iter()
        .map(|(_, gs)| gs.iter().map(|g| g.count()).sum::<u32>())
        .sum();
    let leftover: u32 = result.leftover_ranges.iter().map(|g| g.count()).sum();
    assert_eq!(filled + leftover, original);
}

#[test]
fn shorter_request_ignores_trailing_groups() {
    let inventory = vec![
        Group::new("A".into(), vec![Range::new(1, 10)]),
        Group::new("B".into(), vec![Range::new(11, 20)]),
    ];
    let requests = vec![Request::new("X".into(), vec![4])];
    let result = split(&inventory, &requests).expect("split succeeds");
    assert_eq!(
        result.filled_requests,
        vec![("X".to_string(), vec![Group::new("A".into(), vec![Range::new(1, 4)])])]
    );
    assert_eq!(
        result.leftover_ranges,
        vec![
            Group::new("A".into(), vec![Range::new(5, 10)]),
            Group::new("B".into(), vec![Range::new(11, 20)]),
        ]
    );
}
