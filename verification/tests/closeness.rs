use disk_scheduling::position::seek_distance;
use disk_scheduling::TemplateApp;

fn distances(order: &[u32], base: u32) -> Vec<u32> {
    order.iter().map(|&x| seek_distance(x, base)).collect()
}

fn sorted_copy(v: &[u32]) -> Vec<u32> {
    let mut copy = v.to_vec();
    copy.sort();
    copy
}

#[test]
fn closeness_orders_the_textbook_queue() {
    let requests = vec![82, 170, 23, 140, 110];
    let order = TemplateApp::ordered_by_closeness(&requests, 50);
    assert_eq!(order, vec![23, 82, 110, 140, 170]);
    assert_eq!(distances(&order, 50), vec![27, 32, 60, 90, 120]);
}

#[test]
fn closeness_leaves_its_input_alone() {
    let requests = vec![82, 170, 23, 140, 110];
    let _ = TemplateApp::ordered_by_closeness(&requests, 50);
    assert_eq!(requests, vec![82, 170, 23, 140, 110]);
}

#[test]
fn closeness_of_nothing_is_nothing() {
    assert_eq!(TemplateApp::ordered_by_closeness(&vec![], 50), Vec::<u32>::new());
}

#[test]
fn closeness_of_one_request_is_that_request() {
    assert_eq!(TemplateApp::ordered_by_closeness(&vec![7], 50), vec![7]);
    assert_eq!(TemplateApp::ordered_by_closeness(&vec![50], 50), vec![50]);
}

#[test]
fn closeness_keeps_ties_in_input_order() {
    // 60 and 40 are both 10 away, 55 and 45 both 5 away.
    let order = TemplateApp::ordered_by_closeness(&vec![60, 40, 55, 45], 50);
    assert_eq!(order, vec![55, 45, 60, 40]);
    let order = TemplateApp::ordered_by_closeness(&vec![40, 60, 45, 55], 50);
    assert_eq!(order, vec![45, 55, 40, 60]);
}

#[test]
fn closeness_puts_the_head_itself_first() {
    let order = TemplateApp::ordered_by_closeness(&vec![10, 50, 90, 50], 50);
    assert_eq!(order, vec![50, 50, 10, 90]);
}

#[test]
fn closeness_keeps_duplicates() {
    let order = TemplateApp::ordered_by_closeness(&vec![30, 70, 30, 70, 30], 50);
    assert_eq!(order, vec![30, 70, 30, 70, 30]);
    let order = TemplateApp::ordered_by_closeness(&vec![90, 30, 90, 30], 50);
    assert_eq!(order, vec![30, 30, 90, 90]);
}

#[test]
fn closeness_is_a_rearrangement_with_rising_distance() {
    let requests = vec![5, 999, 0, 512, 512, 77, 300, 1000, 1, 640, 77];
    for base in [0u32, 1, 77, 400, 512, 1000] {
        let order = TemplateApp::ordered_by_closeness(&requests, base);
        assert_eq!(sorted_copy(&order), sorted_copy(&requests));
        let d = distances(&order, base);
        for pair in d.windows(2) {
            assert!(pair[0] <= pair[1]);
        }
    }
}

#[test]
fn closeness_measures_distance_without_wrapping() {
    let order = TemplateApp::ordered_by_closeness(&vec![0, 4_000_000_000, u32::MAX], 3_999_999_999);
    assert_eq!(order, vec![4_000_000_000, u32::MAX, 0]);
}

#[test]
fn closeness_to_cylinder_zero_is_ascending() {
    let order = TemplateApp::ordered_by_closeness(&vec![9, 3, 7, 3, 0, 8], 0);
    assert_eq!(order, vec![0, 3, 3, 7, 8, 9]);
}

#[test]
fn closeness_to_the_top_is_descending() {
    let order = TemplateApp::ordered_by_closeness(&vec![9, 3, 7, 3, 0, 8], u32::MAX);
    assert_eq!(order, vec![9, 8, 7, 3, 3, 0]);
}

#[test]
fn seek_distance_is_the_absolute_difference() {
    assert_eq!(seek_distance(50, 23), 27);
    assert_eq!(seek_distance(23, 50), 27);
    assert_eq!(seek_distance(7, 7), 0);
    assert_eq!(seek_distance(0, u32::MAX), u32::MAX);
    assert_eq!(seek_distance(u32::MAX, 0), u32::MAX);
}

/// A small linear congruential generator: the same queues on every run.
fn queues(count: usize, longest: usize, highest: u32) -> Vec<Vec<u32>> {
    let mut state: u64 = 0x2545_f491_4f6c_dd1d;
    let mut next = move || {
        state = state.wrapping_mul(6364136223846793005).wrapping_add(1442695040888963407);
        (state >> 33) as u32
    };
    let mut all = Vec::new();
    for n in 0..count {
        let len = n % (longest + 1);
        let mut queue = Vec::with_capacity(len);
        for _ in 0..len {
            queue.push(next() % (highest + 1));
        }
        all.push(queue);
    }
    all
}

#[test]
fn closeness_agrees_with_a_stable_sort_by_distance() {
    for queue in queues(200, 40, 30) {
        for base in [0u32, 7, 15, 30, 31, 1000] {
            let mut expected = queue.clone();
            expected.sort_by_key(|&x| (x as i64 - base as i64).abs());
            assert_eq!(TemplateApp::ordered_by_closeness(&queue, base), expected);
        }
    }
}

#[test]
fn closeness_sorts_a_long_queue() {
    let queue: Vec<u32> = (0..5000u32).map(|i| (i * 7919) % 1001).collect();
    let mut expected = queue.clone();
    expected.sort_by_key(|&x| (x as i64 - 500).abs());
    assert_eq!(TemplateApp::ordered_by_closeness(&queue, 500), expected);
}
