use std::collections::binary_heap::PeekMut;
use std::collections::BinaryHeap;
use weakheap::{WeakHeap, WeakHeapPeekMut};

fn lcg(state: &mut u64) -> u64 {
    *state = state
        .wrapping_mul(6364136223846793005)
        .wrapping_add(1442695040888963407);
    *state
}

fn rand_in(state: &mut u64, lo: i64, hi: i64) -> i64 {
    let span = (hi - lo + 1) as u64;
    lo + ((lcg(state) >> 33) % span) as i64
}

#[test]
fn test_creation() {
    // WeakHeap::new()
    let mut heap: WeakHeap = WeakHeap::new();
    assert_eq!(heap.len(), 0);
    assert!(heap.is_empty());

    heap.push(1);
    assert_eq!(heap.len(), 1);
    assert!(!heap.is_empty());

    // WeakHeap::with_capacity()
    let mut heap: WeakHeap = WeakHeap::with_capacity(5);
    assert_eq!(heap.len(), 0);
    assert!(heap.is_empty());

    heap.push(1);
    assert_eq!(heap.len(), 1);
    assert!(!heap.is_empty());

    // WeakHeap::default()
    let mut heap: WeakHeap = WeakHeap::default();
    assert_eq!(heap.len(), 0);
    assert!(heap.is_empty());

    heap.push(1);
    assert_eq!(heap.len(), 1);
    assert!(!heap.is_empty());
}

#[test]
fn test_from() {
    // From a vector
    let heap_from_vec = WeakHeap::from_vec(vec![3, 2, 5, 1, 4]);
    assert_eq!(heap_from_vec.clone().into_sorted_vec(), vec![1, 2, 3, 4, 5]);

    // From another arrangement of the same values
    let mut heap_from_arr = WeakHeap::from_vec(vec![2, 1, 5, 4, 3]);
    let mut temp_heap = heap_from_vec.clone();
    while let Some((a, b)) = temp_heap.pop().zip(heap_from_arr.pop()) {
        assert_eq!(a, b);
    }
    assert!(heap_from_arr.is_empty());

    // Built by bulk extension
    let mut heap_from_iter: WeakHeap = WeakHeap::new();
    heap_from_iter.extend(&vec![3, 2, 5, 4, 1]);
    let mut temp_heap = heap_from_vec.clone();
    while let Some((a, b)) = temp_heap.pop().zip(heap_from_iter.pop()) {
        assert_eq!(a, b);
    }
    assert!(heap_from_iter.is_empty());

    // Built by single pushes
    let mut heap_from_iter: WeakHeap = WeakHeap::new();
    for x in vec![3, 2, 5, 4, 1] {
        heap_from_iter.push(x);
    }
    let mut temp_heap = heap_from_vec.clone();
    while let Some((a, b)) = temp_heap.pop().zip(heap_from_iter.pop()) {
        assert_eq!(a, b);
    }
    assert!(heap_from_iter.is_empty());
}

#[test]
fn test_into_sorted_vec() {
    // Edge cases
    let elements: Vec<i64> = vec![];
    assert_eq!(WeakHeap::from_vec(elements).into_sorted_vec(), vec![]);

    let elements: Vec<i64> = vec![1];
    assert_eq!(WeakHeap::from_vec(elements).into_sorted_vec(), vec![1]);

    // Fixed tests
    let elements = vec![7, 1, 4, 5, 3, 2, 2, 7, 6, 9, 1];
    assert_eq!(
        WeakHeap::from_vec(elements).into_sorted_vec(),
        vec![1, 1, 2, 2, 3, 4, 5, 6, 7, 7, 9],
    );

    let elements: Vec<i64> = vec![1, 1, 2, 1, 1];
    assert_eq!(
        WeakHeap::from_vec(elements).into_sorted_vec(),
        vec![1, 1, 1, 1, 2],
    );

    // Random tests
    let mut state: u64 = 1;

    for size in 0..=100usize {
        let mut elements: Vec<i64> = Vec::with_capacity(size);
        for _ in 0..size {
            elements.push(rand_in(&mut state, -30, 30));
        }

        let weak_heap = WeakHeap::from_vec(elements.clone());
        assert_eq!(weak_heap.len(), size); // Testing `from_vec`.

        elements.sort();
        assert_eq!(weak_heap.into_sorted_vec(), elements);
    }
}

#[test]
fn test_push() {
    // Fixed tests
    let mut weak_heap = WeakHeap::new();
    weak_heap.push(2);
    assert_eq!(weak_heap.len(), 1);
    assert_eq!(weak_heap.peek(), Some(2));

    weak_heap.push(1);
    assert_eq!(weak_heap.len(), 2);
    assert_eq!(weak_heap.peek(), Some(2));

    weak_heap.push(3);
    assert_eq!(weak_heap.len(), 3);
    assert_eq!(weak_heap.peek(), Some(3));

    // Random tests against BinaryHeap
    let mut state: u64 = 2;

    for size in 0..=100usize {
        let mut elements: Vec<i64> = Vec::with_capacity(size);
        for _ in 0..size {
            elements.push(rand_in(&mut state, -30, 30));
        }

        let mut binary_hep: BinaryHeap<i64> = BinaryHeap::new();

        let mut weak_heap: WeakHeap = WeakHeap::new();
        assert_eq!(weak_heap.len(), 0);

        for x in elements.iter() {
            binary_hep.push(*x);
            weak_heap.push(*x);
            assert_eq!(weak_heap.len(), binary_hep.len());
            assert_eq!(weak_heap.peek(), binary_hep.peek().copied());
        }

        elements.sort();
        assert_eq!(weak_heap.into_sorted_vec(), elements);
    }
}

#[test]
fn test_pop() {
    // Fixed tests
    let mut weak_heap: WeakHeap = WeakHeap::new();
    assert_eq!(weak_heap.pop(), None);
    assert_eq!(weak_heap.len(), 0);

    let mut weak_heap = WeakHeap::from_vec(vec![4, 2]);
    assert_eq!(weak_heap.pop(), Some(4));
    assert_eq!(weak_heap.len(), 1);
    assert_eq!(weak_heap.pop(), Some(2));
    assert_eq!(weak_heap.len(), 0);
    assert_eq!(weak_heap.pop(), None);
    assert_eq!(weak_heap.len(), 0);

    // Random tests against BinaryHeap
    let mut state: u64 = 3;

    for size in 0..=100usize {
        let mut elements: Vec<i64> = Vec::with_capacity(size);
        for _ in 0..size {
            elements.push(rand_in(&mut state, -30, 30));
        }

        let mut binary_hep: BinaryHeap<i64> = BinaryHeap::from(elements.clone());
        let mut weak_heap: WeakHeap = WeakHeap::from_vec(elements);

        while !binary_hep.is_empty() {
            assert_eq!(weak_heap.pop(), binary_hep.pop());
            assert_eq!(weak_heap.len(), binary_hep.len());
        }
        assert!(binary_hep.is_empty());
    }
}

#[test]
fn test_pop_with_push() {
    // Let's make sure that push and pop do not interfere with each other's work.

    // Fixed tests
    let mut weak_heap = WeakHeap::new();
    weak_heap.push(2);
    assert_eq!(weak_heap.peek(), Some(2));
    assert_eq!(weak_heap.len(), 1);
    weak_heap.push(4);
    assert_eq!(weak_heap.peek(), Some(4));
    assert_eq!(weak_heap.len(), 2);
    assert_eq!(weak_heap.pop(), Some(4));
    assert_eq!(weak_heap.len(), 1);
    assert_eq!(weak_heap.pop(), Some(2));
    assert_eq!(weak_heap.len(), 0);
    assert_eq!(weak_heap.pop(), None);
    assert_eq!(weak_heap.len(), 0);

    // Random tests against BinaryHeap
    let mut state: u64 = 4;

    for size in 0..=100usize {
        let mut elements: Vec<i64> = Vec::with_capacity(size);
        for _ in 0..size {
            elements.push(rand_in(&mut state, -30, 30));
        }

        let mut binary_hep: BinaryHeap<i64> = BinaryHeap::new();
        let mut weak_heap: WeakHeap = WeakHeap::new();

        for x in elements {
            binary_hep.push(x);
            weak_heap.push(x);
            if x % 2 == 0 {
                assert_eq!(weak_heap.pop(), binary_hep.pop());
                assert_eq!(weak_heap.len(), binary_hep.len());
            }
        }
        assert_eq!(weak_heap.into_sorted_vec(), binary_hep.into_sorted_vec());
    }
}

#[test]
fn test_clone() {
    let h1 = WeakHeap::from_vec(vec![7, 5, 9, 0, 2]);
    let h2 = h1.clone();
    let mut h3: WeakHeap = WeakHeap::new();
    h3.clone_from(&h1);
    let res = h1.into_sorted_vec();
    assert_eq!(h2.into_sorted_vec(), res);
    assert_eq!(h3.into_sorted_vec(), res);
}

#[test]
fn test_peek() {
    let mut heap = WeakHeap::new();
    assert_eq!(heap.peek(), None);

    heap.push(1);
    assert_eq!(heap.peek(), Some(1));

    heap.push(5);
    assert_eq!(heap.peek(), Some(5));

    heap.pop();
    assert_eq!(heap.peek(), Some(1));
    heap.pop();
    assert_eq!(heap.peek(), None);
}

#[test]
fn test_capacity() {
    let mut heap: WeakHeap = WeakHeap::new();
    assert_eq!(heap.capacity(), 0);
    heap.push(1);
    assert_eq!(heap.capacity(), 4);

    let mut heap: WeakHeap = WeakHeap::with_capacity(2);
    assert_eq!(heap.capacity(), 2);

    heap.push(1);
    heap.push(2);
    assert_eq!(heap.capacity(), 2);

    heap.push(3);
    assert_eq!(heap.capacity(), 4);
}

#[test]
fn test_reserve() {
    let mut heap = WeakHeap::from_vec(vec![3, 4]);
    assert_eq!(heap.capacity(), 2);
    heap.reserve(100);
    assert!(heap.capacity() >= 102);
}

#[test]
fn test_reserve_exact() {
    let mut heap = WeakHeap::from_vec(vec![3, 4]);
    assert_eq!(heap.capacity(), 2);
    heap.reserve_exact(100);
    assert!(heap.capacity() >= 102);
}

#[test]
fn test_shrink_to() {
    let mut heap: WeakHeap = WeakHeap::with_capacity(20);
    assert_eq!(heap.capacity(), 20);

    heap.shrink_to(100);
    assert_eq!(heap.capacity(), 20);

    heap.shrink_to(10);
    assert_eq!(heap.capacity(), 10);
}

#[test]
fn test_shrink_to_fit() {
    let mut heap: WeakHeap = WeakHeap::with_capacity(10);
    heap.shrink_to_fit();
    assert_eq!(heap.capacity(), 0);

    heap.push(1);
    heap.push(2);
    heap.push(3);
    heap.shrink_to_fit();
    assert_eq!(heap.capacity(), 3);
}

#[test]
fn test_peek_mut() {
    let mut heap: WeakHeap = WeakHeap::new();
    assert!(heap.peek_mut().is_none());

    heap.push(3);
    {
        let mut top = heap.peek_mut().unwrap();
        top.set(4);
        heap = WeakHeapPeekMut::release(top);
    }
    assert_eq!(heap.peek(), Some(4));

    heap.push(1);
    heap.push(6);
    assert_eq!(heap.peek(), Some(6));
    {
        let mut top = heap.peek_mut().unwrap();
        top.set(0);
        heap = WeakHeapPeekMut::release(top);
    }
    assert_eq!(heap.peek(), Some(4));

    {
        let top = heap.peek_mut().unwrap();
        let (popped, rest) = WeakHeapPeekMut::pop(top);
        assert_eq!(popped, 4);
        heap = rest;
    }
    assert_eq!(heap.peek(), Some(1));

    // Random tests against BinaryHeap
    let mut state: u64 = 5;

    for size in 1..=100usize {
        let mut elements: Vec<i64> = Vec::with_capacity(size);
        for _ in 0..size {
            elements.push(rand_in(&mut state, -30, 30));
        }

        let mut binary_heap: BinaryHeap<i64> = BinaryHeap::from(elements.clone());
        let mut weak_heap: WeakHeap = WeakHeap::from_vec(elements);

        for _ in 0..size * 2 {
            let new_val: i64 = rand_in(&mut state, -50, 50);
            {
                let mut bin_val = binary_heap.peek_mut().unwrap();
                *bin_val = new_val;
            }
            {
                let mut weak_val = weak_heap.peek_mut().unwrap();
                weak_val.set(new_val);
                weak_heap = WeakHeapPeekMut::release(weak_val);
            }
            assert_eq!(weak_heap.peek(), binary_heap.peek().copied());
        }

        assert_eq!(
            weak_heap.clone().into_sorted_vec(),
            binary_heap.clone().into_sorted_vec()
        );

        for _ in 0..size {
            {
                let bin_val = binary_heap.peek_mut().unwrap();
                let weak_val = weak_heap.peek_mut().unwrap();
                let (popped, rest) = WeakHeapPeekMut::pop(weak_val);
                weak_heap = rest;
                assert_eq!(popped, PeekMut::pop(bin_val));
            }
            assert_eq!(weak_heap.peek(), binary_heap.peek().copied());
        }
        assert!(weak_heap.is_empty());
    }
}

#[test]
fn test_pushpop() {
    let mut heap: WeakHeap = WeakHeap::new();
    assert_eq!(heap.pushpop(5), 5);
    assert_eq!(heap.len(), 0);

    heap.push(3);
    assert_eq!(heap.pushpop(2), 3);
    assert_eq!(heap.peek(), Some(2));
    assert_eq!(heap.len(), 1);

    assert_eq!(heap.pushpop(4), 4);
    assert_eq!(heap.peek(), Some(2));
    assert_eq!(heap.len(), 1);

    // Random tests against push and pop
    let mut state: u64 = 6;

    for size in 0..=100usize {
        let mut elements: Vec<i64> = Vec::with_capacity(size);
        for _ in 0..size {
            elements.push(rand_in(&mut state, -30, 30));
        }

        let mut heap1 = WeakHeap::from_vec(elements); // pushpop
        let mut heap2 = heap1.clone(); // push and pop

        for _ in 0..size * 2 {
            let item = rand_in(&mut state, -50, 49);
            heap2.push(item);
            assert_eq!(heap1.pushpop(item), heap2.pop().unwrap());
            assert_eq!(heap1.len(), heap2.len());
            assert_eq!(heap1.peek(), heap2.peek());
        }

        assert_eq!(heap1.into_sorted_vec(), heap2.into_sorted_vec());
    }
}

#[test]
fn test_append() {
    let mut h1: WeakHeap = WeakHeap::new();
    let mut h2: WeakHeap = WeakHeap::new();
    h1.append(&mut h2);
    assert_eq!(h1.into_sorted_vec(), vec![]);

    // Random tests against BinaryHeap
    let mut state: u64 = 7;
    for size1 in 0..100usize {
        let mut elements1: Vec<i64> = Vec::with_capacity(size1);
        for _ in 0..size1 {
            elements1.push(rand_in(&mut state, -30, 30));
        }

        let weak_heap = WeakHeap::from_vec(elements1.clone());
        let bin_heap = BinaryHeap::from(elements1);

        for size2 in 0..100usize {
            let mut elements2: Vec<i64> = Vec::with_capacity(size2);
            for _ in 0..size2 {
                elements2.push(rand_in(&mut state, -30, 30));
            }

            let mut wh2 = WeakHeap::from_vec(elements2.clone());
            let mut bh2 = BinaryHeap::from(elements2);

            let mut wh1 = weak_heap.clone();
            let mut bh1 = bin_heap.clone();

            wh1.append(&mut wh2);
            bh1.append(&mut bh2);

            assert_eq!(wh1.peek(), bh1.peek().copied());
            assert_eq!(wh1.len(), bh1.len());
            assert!(wh2.is_empty());
            assert_eq!(wh1.into_sorted_vec(), bh1.into_sorted_vec());
        }
    }
}

#[test]
fn test_extend() {
    let mut heap: WeakHeap = WeakHeap::new();

    heap.extend(&vec![0]);
    assert_eq!(heap.len(), 1);

    heap.extend(&Vec::<i64>::new());
    assert_eq!(heap.len(), 1);

    heap.extend(&vec![7, 9, 2, 1]);
    assert_eq!(heap.into_sorted_vec(), vec![0, 1, 2, 7, 9]);

    // Random tests against BinaryHeap
    let mut state: u64 = 8;

    let mut weak_heap = WeakHeap::new();
    let mut bin_heap = BinaryHeap::new();

    for size in 0..100usize {
        let mut elements: Vec<i64> = Vec::with_capacity(size);
        for _ in 0..size {
            elements.push(rand_in(&mut state, -30, 30));
        }

        weak_heap.extend(&elements);
        bin_heap.extend(elements);

        assert_eq!(weak_heap.len(), bin_heap.len());
        assert_eq!(weak_heap.peek(), bin_heap.peek().copied());
        assert_eq!(
            weak_heap.clone().into_sorted_vec(),
            bin_heap.clone().into_sorted_vec()
        );
    }

    assert_eq!(weak_heap.into_sorted_vec(), bin_heap.into_sorted_vec());
}

#[test]
fn append_vec() {
    let mut heap = WeakHeap::new();
    heap.append_vec(&mut vec![]);
    assert_eq!(heap.len(), 0);

    heap.append_vec(&mut vec![3, 8, 5]);
    assert_eq!(heap.into_sorted_vec(), vec![3, 5, 8]);

    // Random tests
    let mut state: u64 = 9;
    let mut weak_heap: WeakHeap = WeakHeap::new();
    let mut all_elements: Vec<i64> = Vec::with_capacity(5050);

    let mut len = 0;
    for size in 0..=100usize {
        len += size;

        let mut elements: Vec<i64> = Vec::with_capacity(size);
        for _ in 0..size {
            elements.push(rand_in(&mut state, -30, 30));
        }

        all_elements.append(&mut elements.clone());
        all_elements.sort_unstable();

        weak_heap.append_vec(&mut elements);

        assert_eq!(weak_heap.len(), len);
        assert_eq!(weak_heap.clone().into_sorted_vec(), all_elements);
        assert!(elements.is_empty());
    }

    assert_eq!(weak_heap.into_sorted_vec(), all_elements);
}

#[test]
fn test_into_iter() {
    let heap: WeakHeap = WeakHeap::new();
    let mut it = heap.into_iter();
    assert_eq!(it.next(), None);

    let heap = WeakHeap::from_vec(vec![3, 8, 5]);
    let mut data: Vec<i64> = heap.into_iter().0;
    data.sort();
    assert_eq!(data, vec![3, 5, 8]);

    // Random tests
    let mut state: u64 = 10;
    for size in 0..=100usize {
        let mut elements: Vec<i64> = Vec::with_capacity(size);
        for _ in 0..size {
            elements.push(rand_in(&mut state, -30, 30));
        }

        let h1 = WeakHeap::from_vec(elements.clone());
        elements.sort();
        assert_eq!(h1.into_sorted_vec(), elements);
    }
}

#[test]
fn test_iter() {
    let heap: WeakHeap = WeakHeap::new();
    let mut it = heap.into_iter();
    assert_eq!(it.next(), None);

    let heap = WeakHeap::from_vec(vec![3, 8]);
    let iter = heap.iter();

    // Clone
    let data: Vec<i64> = iter.clone().0;
    assert_eq!(data, vec![8, 3]);
    // Size hint
    assert_eq!(iter.size_hint(), (2, Some(2)));
    // Debug
    assert_eq!(format!("{:?}", iter), "Iter([8, 3])");
    // Size hint
    assert_eq!(iter.size_hint(), (2, Some(2)));
    // Last
    assert_eq!(iter.last(), Some(3));

    // Iterating visits every stored value
    let mut state: u64 = 11;
    for size in 0..=50usize {
        let mut elements: Vec<i64> = Vec::with_capacity(size);
        for _ in 0..size {
            elements.push(rand_in(&mut state, -30, 30));
        }

        let heap = WeakHeap::from_vec(elements);
        let mut content: Vec<i64> = heap.iter().0;
        content.sort();

        assert_eq!(content, heap.into_sorted_vec());
    }
}

#[test]
fn test_drain() {
    let mut state: u64 = 12;
    for size in 0..=20usize {
        let mut elements: Vec<i64> = Vec::with_capacity(size);
        for _ in 0..size {
            elements.push(rand_in(&mut state, -30, 30));
        }

        let mut heap = WeakHeap::from_vec(elements.clone());
        assert_eq!(heap.len(), size);

        let mut content: Vec<i64> = heap.drain().0;
        assert!(heap.is_empty());

        content.sort();
        elements.sort();

        assert_eq!(content, elements);
    }
}

#[test]
fn test_clear() {
    let mut state: u64 = 13;
    for size in 0..=20usize {
        let mut elements: Vec<i64> = Vec::with_capacity(size);
        for _ in 0..size {
            elements.push(rand_in(&mut state, -30, 30));
        }

        let mut heap = WeakHeap::from_vec(elements);
        assert_eq!(heap.len(), size);
        heap.clear();
        assert!(heap.is_empty());

        let mut data = Vec::with_capacity(size);
        for _ in 0..size {
            let x = rand_in(&mut state, -30, 30);
            data.push(x);
            heap.push(x);
        }

        data.sort();
        assert_eq!(heap.into_sorted_vec(), data);
    }
}

#[test]
fn test_into_iter_ref() {
    let heap: WeakHeap = WeakHeap::new();
    let mut it = heap.iter();
    assert_eq!(it.next(), None);

    let heap = WeakHeap::from_vec(vec![3, 8]);
    let iter = heap.iter();

    for x in heap.iter().0 {
        println!("{}", x);
    }

    for x in iter.0 {
        println!("{}", x);
    }

    let iter = heap.iter();
    // Clone
    let data: Vec<i64> = iter.clone().0;
    assert_eq!(data, vec![8, 3]);
    // Size hint
    assert_eq!(iter.size_hint(), (2, Some(2)));
    // Debug
    assert_eq!(format!("{:?}", iter), "Iter([8, 3])");
    // Size hint
    assert_eq!(iter.size_hint(), (2, Some(2)));
    // Last
    assert_eq!(iter.last(), Some(3));

    // Iterating visits every stored value
    let mut state: u64 = 14;
    for size in 0..=50usize {
        let mut elements: Vec<i64> = Vec::with_capacity(size);
        for _ in 0..size {
            elements.push(rand_in(&mut state, -30, 30));
        }

        let heap = WeakHeap::from_vec(elements);
        let mut content: Vec<i64> = heap.iter().0;
        content.sort();

        assert_eq!(content, heap.into_sorted_vec());
    }
}

#[test]
fn test_extend_ref() {
    let mut heap: WeakHeap = WeakHeap::new();

    heap.extend(&vec![0]);
    assert_eq!(heap.len(), 1);

    heap.extend(&Vec::<i64>::new());
    assert_eq!(heap.len(), 1);

    heap.extend(&vec![7, 9, 2, 1]);
    heap.extend(&vec![4, 3, 6, 5]);
    assert_eq!(heap.into_sorted_vec(), vec![0, 1, 2, 3, 4, 5, 6, 7, 9]);
}

#[test]
fn test_into_vec_permutation() {
    let heap = WeakHeap::from_vec(vec![5, 1, 3]);
    let mut content = heap.into_vec();
    assert_eq!(content.len(), 3);
    content.sort();
    assert_eq!(content, vec![1, 3, 5]);

    let heap: WeakHeap = WeakHeap::new();
    assert_eq!(heap.into_vec(), Vec::<i64>::new());
}

#[test]
fn test_peek_is_max() {
    let mut heap = WeakHeap::from_vec(vec![-7, 12, 0, 12, 3]);
    assert_eq!(heap.peek(), Some(12));
    heap.push(40);
    assert_eq!(heap.peek(), Some(40));
    assert_eq!(heap.pop(), Some(40));
    assert_eq!(heap.peek(), Some(12));
}

#[test]
fn test_pop_sequence_sorted() {
    let mut heap = WeakHeap::from_vec(vec![2, 9, 4, 9, -3, 0]);
    let mut popped: Vec<i64> = Vec::new();
    while let Some(x) = heap.pop() {
        popped.push(x);
    }
    assert_eq!(popped, vec![9, 9, 4, 2, 0, -3]);
    assert_eq!(popped.len(), 6);
}

#[test]
fn test_capacity_ops_keep_contents() {
    let mut heap = WeakHeap::from_vec(vec![8, 6, 7]);
    heap.reserve(50);
    heap.reserve_exact(10);
    heap.shrink_to(4);
    heap.shrink_to_fit();
    assert_eq!(heap.len(), 3);
    assert_eq!(heap.into_sorted_vec(), vec![6, 7, 8]);
}

#[test]
fn test_pushpop_on_empty_leaves_empty() {
    let mut heap: WeakHeap = WeakHeap::new();
    assert_eq!(heap.pushpop(5), 5);
    assert!(heap.is_empty());
    assert_eq!(heap.pop(), None);
    let drained: Vec<i64> = heap.drain().0;
    assert_eq!(drained, Vec::<i64>::new());
    assert!(heap.is_empty());
}
