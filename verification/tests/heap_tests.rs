use clann::heap::{Element, TopKClosestHeap};

// Distances are fixed-point cosine distances in millionths: 2.5 is 2_500_000.

#[test]
fn test_add_elements_less_than_capacity() {
    let mut heap = TopKClosestHeap::new(3);

    assert!(heap.add(Element { distance: 2_500_000, point_index: 0 }));
    assert!(heap.add(Element { distance: 1_500_000, point_index: 1 }));

    let elements = heap.to_list();
    assert_eq!(elements.len(), 2);
    assert_eq!(elements, vec![(1_500_000, 1), (2_500_000, 0)]);
}

#[test]
fn test_add_elements_exceeding_capacity() {
    let mut heap = TopKClosestHeap::new(3);

    heap.add(Element { distance: 3_000_000, point_index: 0 });
    heap.add(Element { distance: 2_000_000, point_index: 1 });
    heap.add(Element { distance: 1_000_000, point_index: 2 });

    // Adding an element with a smaller distance should replace the largest
    heap.add(Element { distance: 500_000, point_index: 3 });

    let elements = heap.to_list();
    assert_eq!(elements.len(), 3);
    println!("{:?}", elements);
    assert!(elements.contains(&(1_000_000, 2)));
    assert!(elements.contains(&(2_000_000, 1)));
    assert!(elements.contains(&(500_000, 3)));
}

#[test]
fn test_no_replace_if_distance_is_larger() {
    let mut heap = TopKClosestHeap::new(3);

    heap.add(Element { distance: 3_000_000, point_index: 0 });
    heap.add(Element { distance: 2_000_000, point_index: 1 });
    heap.add(Element { distance: 1_000_000, point_index: 2 });

    // Adding an element with a larger distance does not replace the largest
    assert!(!heap.add(Element { distance: 4_000_000, point_index: 3 }));

    let elements = heap.to_list();
    assert_eq!(elements.len(), 3);
    assert!(!elements.contains(&(4_000_000, 3)));
}

#[test]
fn test_get_top_element() {
    let mut heap = TopKClosestHeap::new(2);

    heap.add(Element { distance: 2_000_000, point_index: 1 });
    heap.add(Element { distance: 1_000_000, point_index: 2 });

    assert_eq!(heap.get_top(), Some((1, 2_000_000)));

    heap.add(Element { distance: 500_000, point_index: 3 });

    assert_eq!(heap.get_top(), Some((2, 1_000_000)));
}

#[test]
fn test_empty_heap() {
    let heap = TopKClosestHeap::new(3);
    assert_eq!(heap.to_list().len(), 0);
    assert_eq!(heap.get_top(), None);
}
